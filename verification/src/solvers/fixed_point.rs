//! What an empty frontier means: the field is a fixed point.
use vstd::prelude::*;

use crate::grid::on_grid;
use crate::model::{
    at_rest, law_best_is_least, lemma_best_local, lemma_best_place, lemma_frame_trans,
    lemma_heading, lemma_located, lemma_succ_bound, lemma_upd_keeps, same_cost, same_frame,
    same_place, Grid, Model,
};
use crate::solvers::bitboard::{near_cell, within};
use crate::solvers::displacement::{law_reach_covers, reach, Axis};
use crate::solvers::frontier2d::{
    candidates, cell_moves, cell_pass, lemma_cell_states, plane_pass, round, rounds, seeded,
    valued_cells, Wave,
};
use crate::state::{updatable, State};

verus! {

/// The cell of a state.
pub open spec fn cell_of(g: Grid, st: State) -> int {
    st.iy * g.nx + st.ix
}

proof fn lemma_cell_pass(m: Model, s: Seq<State>, c: int, k: int)
    requires
        m.wf(),
        m.grid.located(s),
        0 <= c < m.grid.nx * m.grid.ny,
        0 <= k <= m.grid.nt,
    ensures
        m.grid.located(cell_pass(m, s, c, k)),
        same_frame(s, cell_pass(m, s, c, k)),
        forall|j: int|
            0 <= j < s.len() && !(c * m.grid.nt <= j < c * m.grid.nt + k)
                ==> #[trigger] cell_pass(m, s, c, k)[j] == s[j],
        0 <= cell_moves(m, s, c, k),
        cell_moves(m, s, c, k) == 0 ==> forall|j: int|
            0 <= j < s.len() ==> (#[trigger] cell_pass(m, s, c, k)[j]).total_cost
                == s[j].total_cost,
    decreases k,
{
    if k > 0 {
        lemma_cell_pass(m, s, c, k - 1);
        lemma_cell_states(m.grid, c, k - 1);
        let p = cell_pass(m, s, c, k - 1);
        lemma_upd_keeps(m, p, c * m.grid.nt + k - 1);
        lemma_frame_trans(s, p, cell_pass(m, s, c, k));
    }
}

proof fn lemma_plane_frame(m: Model, w: Wave, cand: Set<int>, n: int)
    requires
        m.wf(),
        m.grid.located(w.states),
        0 <= n <= m.grid.nx * m.grid.ny,
    ensures
        m.grid.located(plane_pass(m, w, cand, n).states),
        same_frame(w.states, plane_pass(m, w, cand, n).states),
    decreases n,
{
    if n > 0 {
        lemma_plane_frame(m, w, cand, n - 1);
        let p = plane_pass(m, w, cand, n - 1).states;
        lemma_cell_pass(m, p, n - 1, m.grid.nt);
        if cand.contains(n - 1) {
            lemma_frame_trans(w.states, p, cell_pass(m, p, n - 1, m.grid.nt));
        }
    }
}

proof fn lemma_frontier_grows(m: Model, w: Wave, cand: Set<int>, k: int, n: int)
    requires
        k <= n,
    ensures
        plane_pass(m, w, cand, k).frontier.subset_of(plane_pass(m, w, cand, n).frontier),
    decreases n - k,
{
    if k < n {
        lemma_frontier_grows(m, w, cand, k, n - 1);
    }
}

/// The position of a state in its cell.
proof fn lemma_in_cell(g: Grid, s: Seq<State>, j: int)
    requires
        g.wf(),
        g.located(s),
        0 <= j < s.len(),
    ensures
        j == cell_of(g, s[j]) * g.nt + s[j].it,
        0 <= s[j].it < g.nt,
        0 <= cell_of(g, s[j]) < g.nx * g.ny,
{
    assert(g.located_at(s[j], j));
    crate::grid::lemma_cell_bound(s[j].ix as int, s[j].iy as int, g.nx, g.ny);
}

proof fn lemma_other_cell(c: int, d: int, t: int, k: int, nt: int)
    requires
        c != d,
        0 <= t < nt,
        0 <= k <= nt,
    ensures
        !(c * nt <= d * nt + t < c * nt + k),
{
    if c < d {
        assert(c * nt + nt <= d * nt) by (nonlinear_arith)
            requires
                c + 1 <= d,
                0 <= nt,
        ;
    } else {
        assert(d * nt + nt <= c * nt) by (nonlinear_arith)
            requires
                d + 1 <= c,
                0 <= nt,
        ;
    }
}

/// A state whose cell did not move keeps its value throughout the pass.
proof fn lemma_unmoved(m: Model, w: Wave, cand: Set<int>, n: int, j: int)
    requires
        m.wf(),
        m.grid.located(w.states),
        0 <= n <= m.grid.nx * m.grid.ny,
        0 <= j < w.states.len(),
        !plane_pass(m, w, cand, n).frontier.contains(cell_of(m.grid, w.states[j])),
    ensures
        plane_pass(m, w, cand, n).states[j].total_cost == w.states[j].total_cost,
    decreases n,
{
    if n > 0 {
        lemma_frontier_grows(m, w, cand, n - 1, n);
        lemma_unmoved(m, w, cand, n - 1, j);
        lemma_plane_frame(m, w, cand, n - 1);
        let p = plane_pass(m, w, cand, n - 1).states;
        if cand.contains(n - 1) {
            lemma_cell_pass(m, p, n - 1, m.grid.nt);
            lemma_in_cell(m.grid, w.states, j);
            if cell_of(m.grid, w.states[j]) != n - 1 {
                lemma_other_cell(
                    n - 1,
                    cell_of(m.grid, w.states[j]),
                    w.states[j].it as int,
                    m.grid.nt,
                    m.grid.nt,
                );
            }
        }
    }
}

/// No state that an action leads to from `st` is in a cell of `f`.
spec fn nothing_ahead(m: Model, st: State, s: Seq<State>, f: Set<int>) -> bool {
    forall|a: int, k: int|
        #![trigger m.actions[a].outcomes(st.it as int)[k]]
        0 <= a < m.actions.len() && 0 <= k < m.actions[a].outcomes(st.it as int).len()
            && m.grid.stays(st, m.actions[a].outcomes(st.it as int)[k]) ==> !f.contains(
            cell_of(m.grid, s[m.grid.succ(st, m.actions[a].outcomes(st.it as int)[k])]),
        )
}

/// Two moments of a pass look the same from `st` if nothing ahead of it moves.
proof fn lemma_same_view(
    m: Model,
    w: Wave,
    s: Seq<State>,
    t: Seq<State>,
    st: State,
    f: Set<int>,
)
    requires
        m.wf(),
        m.grid.located(w.states),
        on_grid(st.ix as int, st.iy as int, st.it as int, m.grid.nx, m.grid.ny, m.grid.nt),
        nothing_ahead(m, st, w.states, f),
        same_frame(w.states, s),
        same_frame(w.states, t),
        forall|j: int|
            0 <= j < w.states.len() && !f.contains(cell_of(m.grid, #[trigger] w.states[j]))
                ==> s[j].total_cost == w.states[j].total_cost && t[j].total_cost
                == w.states[j].total_cost,
    ensures
        m.best(s, st, m.actions.len() as int) == m.best(t, st, m.actions.len() as int),
{
    let g = m.grid;
    assert forall|a: int, k: int|
        #![trigger m.actions[a].outcomes(st.it as int)[k]]
        0 <= a < m.actions.len() && 0 <= k < m.actions[a].outcomes(st.it as int).len() && g.stays(
            st,
            m.actions[a].outcomes(st.it as int)[k],
        ) implies same_cost(
        s[g.succ(st, m.actions[a].outcomes(st.it as int)[k])],
        t[g.succ(st, m.actions[a].outcomes(st.it as int)[k])],
    ) by {
        let tr = m.actions[a].outcomes(st.it as int)[k];
        assert(g.action_ok(m.actions[a]));
        assert(g.outcome_ok(m.actions[a].outcomes(st.it as int)[k]));
        lemma_succ_bound(g, st, tr);
        let j = g.succ(st, tr);
        assert(same_place(w.states[j], s[j]));
        assert(same_place(w.states[j], t[j]));
        assert(!f.contains(cell_of(g, w.states[j])));
    }
    lemma_best_local(m, s, t, st, m.actions.len() as int);
}

/// After all headings of a cell have been updated, each is as at the moment of its update.
proof fn lemma_cell_value(m: Model, s: Seq<State>, c: int, k: int, it: int)
    requires
        m.wf(),
        m.grid.located(s),
        0 <= c < m.grid.nx * m.grid.ny,
        0 <= it < k <= m.grid.nt,
    ensures
        ({
            let i = c * m.grid.nt + it;
            cell_pass(m, s, c, k)[i] == m.updated(cell_pass(m, s, c, it), i)
        }),
    decreases k,
{
    let i = c * m.grid.nt + it;
    lemma_cell_states(m.grid, c, it);
    lemma_cell_pass(m, s, c, it);
    lemma_cell_pass(m, s, c, k - 1);
    let p = cell_pass(m, s, c, it);
    assert(same_place(s[i], p[i]));
    law_best_is_least(m, p, p[i], m.actions.len() as int);
    lemma_cell_states(m.grid, c, k - 1);
    if it < k - 1 {
        lemma_cell_value(m, s, c, k - 1, it);
    }
}

/// A state that a pass evaluates has its Bellman value afterwards, unless something
/// ahead of it moved.
proof fn lemma_evaluated_at_rest(m: Model, w: Wave, cand: Set<int>, i: int)
    requires
        m.wf(),
        m.grid.located(w.states),
        0 <= i < w.states.len(),
        updatable(w.states[i]),
        cand.contains(cell_of(m.grid, w.states[i])),
        nothing_ahead(
            m,
            w.states[i],
            w.states,
            plane_pass(m, w, cand, m.grid.nx * m.grid.ny).frontier,
        ),
    ensures
        at_rest(m, plane_pass(m, w, cand, m.grid.nx * m.grid.ny).states, i),
{
    let g = m.grid;
    let n = g.nx * g.ny;
    let st = w.states[i];
    let c = cell_of(g, st);
    let it = st.it as int;
    lemma_in_cell(g, w.states, i);
    let end = plane_pass(m, w, cand, n);
    let p = plane_pass(m, w, cand, c).states;
    let q = cell_pass(m, p, c, it);
    lemma_plane_frame(m, w, cand, c);
    lemma_plane_frame(m, w, cand, c + 1);
    lemma_plane_frame(m, w, cand, n);
    lemma_cell_pass(m, p, c, it);
    lemma_frame_trans(w.states, p, q);
    lemma_cell_value(m, p, c, g.nt, it);
    let after = plane_pass(m, w, cand, c + 1).states;
    assert(same_place(w.states[i], p[i]));
    assert(same_place(w.states[i], q[i]));
    assert(q[i] == p[i]);
    assert(after[i] == m.updated(q, i));
    lemma_later_cells(m, w, cand, c + 1, n, i);
    assert(end.states[i] == after[i]);
    // The moment of the update and the end of the pass look the same from here.
    assert forall|j: int|
        0 <= j < w.states.len() && !end.frontier.contains(
            cell_of(g, #[trigger] w.states[j]),
        ) implies q[j].total_cost == w.states[j].total_cost && end.states[j].total_cost
        == w.states[j].total_cost by {
        lemma_unmoved(m, w, cand, n, j);
        lemma_frontier_grows(m, w, cand, c, n);
        lemma_frontier_grows(m, w, cand, c + 1, n);
        lemma_unmoved(m, w, cand, c, j);
        lemma_in_cell(g, w.states, j);
        let d = cell_of(g, w.states[j]);
        if d != c {
            lemma_other_cell(c, d, w.states[j].it as int, it, g.nt);
        } else {
            lemma_moves_prefix(m, p, c, it, g.nt);
            lemma_cell_pass(m, p, c, g.nt);
        }
    }
    lemma_same_view(m, w, q, end.states, st, end.frontier);
    assert(same_place(w.states[i], q[i]));
    assert(same_place(w.states[i], end.states[i]));
    lemma_best_place(m, q, st, q[i], m.actions.len() as int);
    lemma_best_place(m, end.states, st, end.states[i], m.actions.len() as int);
}

proof fn lemma_moves_prefix(m: Model, s: Seq<State>, c: int, k: int, n: int)
    requires
        m.wf(),
        m.grid.located(s),
        0 <= c < m.grid.nx * m.grid.ny,
        0 <= k <= n <= m.grid.nt,
    ensures
        cell_moves(m, s, c, k) <= cell_moves(m, s, c, n),
        0 <= cell_moves(m, s, c, k),
    decreases n - k,
{
    lemma_cell_pass(m, s, c, k);
    if k < n {
        lemma_moves_prefix(m, s, c, k, n - 1);
    }
}

proof fn lemma_later_cells(m: Model, w: Wave, cand: Set<int>, k: int, n: int, i: int)
    requires
        m.wf(),
        m.grid.located(w.states),
        0 <= i < w.states.len(),
        0 <= k <= n <= m.grid.nx * m.grid.ny,
        cell_of(m.grid, w.states[i]) < k,
    ensures
        plane_pass(m, w, cand, n).states[i] == plane_pass(m, w, cand, k).states[i],
    decreases n - k,
{
    if k < n {
        lemma_later_cells(m, w, cand, k, n - 1, i);
        lemma_plane_frame(m, w, cand, n - 1);
        let p = plane_pass(m, w, cand, n - 1).states;
        lemma_cell_pass(m, p, n - 1, m.grid.nt);
        lemma_in_cell(m.grid, w.states, i);
        lemma_other_cell(
            n - 1,
            cell_of(m.grid, w.states[i]),
            w.states[i].it as int,
            m.grid.nt,
            m.grid.nt,
        );
    }
}

/// A state that a pass does not evaluate keeps value and Bellman value, unless
/// something ahead of it moved.
proof fn lemma_skipped_at_rest(m: Model, w: Wave, cand: Set<int>, i: int)
    requires
        m.wf(),
        m.grid.located(w.states),
        0 <= i < w.states.len(),
        !cand.contains(cell_of(m.grid, w.states[i])),
        nothing_ahead(
            m,
            w.states[i],
            w.states,
            plane_pass(m, w, cand, m.grid.nx * m.grid.ny).frontier,
        ),
    ensures
        ({
            let end = plane_pass(m, w, cand, m.grid.nx * m.grid.ny).states;
            &&& end[i] == w.states[i]
            &&& m.bellman(end, i) == m.bellman(w.states, i)
        }),
{
    let g = m.grid;
    let n = g.nx * g.ny;
    let end = plane_pass(m, w, cand, n);
    lemma_in_cell(g, w.states, i);
    lemma_plane_frame(m, w, cand, n);
    lemma_not_cand_state(m, w, cand, n, i);
    assert forall|j: int|
        0 <= j < w.states.len() && !end.frontier.contains(
            cell_of(g, #[trigger] w.states[j]),
        ) implies w.states[j].total_cost == w.states[j].total_cost && end.states[j].total_cost
        == w.states[j].total_cost by {
        lemma_unmoved(m, w, cand, n, j);
    }
    assert(same_frame(w.states, w.states));
    lemma_same_view(m, w, w.states, end.states, w.states[i], end.frontier);
    assert(same_place(w.states[i], end.states[i]));
    lemma_best_place(m, end.states, w.states[i], end.states[i], m.actions.len() as int);
}

/// A pass leaves the states of cells that it does not evaluate alone.
proof fn lemma_not_cand_state(m: Model, w: Wave, cand: Set<int>, n: int, i: int)
    requires
        m.wf(),
        m.grid.located(w.states),
        0 <= n <= m.grid.nx * m.grid.ny,
        0 <= i < w.states.len(),
        !cand.contains(cell_of(m.grid, w.states[i])),
    ensures
        plane_pass(m, w, cand, n).states[i] == w.states[i],
    decreases n,
{
    if n > 0 {
        lemma_not_cand_state(m, w, cand, n - 1, i);
        lemma_plane_frame(m, w, cand, n - 1);
        if cand.contains(n - 1) {
            lemma_cell_pass(m, plane_pass(m, w, cand, n - 1).states, n - 1, m.grid.nt);
            lemma_in_cell(m.grid, w.states, i);
            lemma_other_cell(
                n - 1,
                cell_of(m.grid, w.states[i]),
                w.states[i].it as int,
                m.grid.nt,
                m.grid.nt,
            );
        }
    }
}

/// If nothing of `f` is within reach of a state, then nothing of `f` is ahead of it.
proof fn lemma_out_of_reach(m: Model, s: Seq<State>, st: State, f: Set<int>)
    requires
        m.wf(),
        m.grid.located(s),
        on_grid(st.ix as int, st.iy as int, st.it as int, m.grid.nx, m.grid.ny, m.grid.nt),
        !candidates(m, f).contains(cell_of(m.grid, st)),
    ensures
        nothing_ahead(m, st, s, f),
{
    let g = m.grid;
    let (dx, dy) = (reach(m, Axis::X), reach(m, Axis::Y));
    assert forall|a: int, k: int|
        #![trigger m.actions[a].outcomes(st.it as int)[k]]
        0 <= a < m.actions.len() && 0 <= k < m.actions[a].outcomes(st.it as int).len() && g.stays(
            st,
            m.actions[a].outcomes(st.it as int)[k],
        ) implies !f.contains(
        cell_of(g, s[g.succ(st, m.actions[a].outcomes(st.it as int)[k])]),
    ) by {
        let tr = m.actions[a].outcomes(st.it as int)[k];
        assert(g.action_ok(m.actions[a]));
        assert(g.outcome_ok(m.actions[a].outcomes(st.it as int)[k]));
        lemma_heading(g, tr);
        let (x2, y2) = (st.ix + tr.dix, st.iy + tr.diy);
        lemma_located(g, s, x2, y2, g.heading(tr));
        law_reach_covers(m, Axis::X, a, st.it as int, k);
        law_reach_covers(m, Axis::Y, a, st.it as int, k);
        if f.contains(y2 * g.nx + x2) {
            assert(within(st.ix as int, x2, dx) && within(st.iy as int, y2, dy));
            assert(near_cell(f, g.nx, g.ny, st.ix as int, st.iy as int, dx, dy));
            assert(candidates(m, f).contains(cell_of(g, st)));
        }
    }
}

/// The state `i` of the starting field has been within reach of a frontier by the
/// start of round `n`.
pub open spec fn touched(m: Model, w: Wave, n: int, i: int) -> bool {
    exists|k: int|
        0 <= k < n && candidates(m, (#[trigger] rounds(m, w, k)).frontier).contains(
            cell_of(m.grid, w.states[i]),
        )
}

/// The state of a solve between rounds: every state has its Bellman value and the
/// action that attains it, is within reach of the frontier, or has never been touched and has its first value.
proof fn lemma_rounds_invariant(m: Model, w: Wave, n: int, i: int)
    requires
        m.wf(),
        m.grid.located(w.states),
        0 <= n,
        0 <= i < w.states.len(),
    ensures
        m.grid.located(rounds(m, w, n).states),
        same_frame(w.states, rounds(m, w, n).states),
        at_rest(m, rounds(m, w, n).states, i) || candidates(
            m,
            rounds(m, w, n).frontier,
        ).contains(cell_of(m.grid, w.states[i])) || !touched(m, w, n, i),
        !touched(m, w, n, i) ==> rounds(m, w, n).states[i] == w.states[i],
    decreases n,
{
    let g = m.grid;
    if n == 0 {
        assert(same_frame(w.states, w.states));
    } else {
        lemma_rounds_invariant(m, w, n - 1, i);
        let p = rounds(m, w, n - 1);
        let cand = candidates(m, p.frontier);
        let q = round(m, p);
        lemma_plane_shape(g);
        lemma_plane_frame(m, p, cand, g.nx * g.ny);
        lemma_frame_trans(w.states, p.states, q.states);
        assert(same_place(w.states[i], p.states[i]));
        assert(g.located_at(p.states[i], i));
        let c = cell_of(g, w.states[i]);
        if !candidates(m, q.frontier).contains(c) {
            lemma_out_of_reach(m, p.states, p.states[i], q.frontier);
            if cand.contains(c) {
                if updatable(p.states[i]) {
                    lemma_evaluated_at_rest(m, p, cand, i);
                } else {
                    assert(q.states[i] == p.states[i]);
                }
            } else {
                lemma_skipped_at_rest(m, p, cand, i);
                assert(same_place(p.states[i], q.states[i]));
            }
        }
        if touched(m, w, n, i) && !touched(m, w, n - 1, i) {
            let k = choose|k: int|
                0 <= k < n && candidates(m, (#[trigger] rounds(m, w, k)).frontier).contains(c);
            assert(k == n - 1) by {
                if k < n - 1 {
                    assert(candidates(m, rounds(m, w, k).frontier).contains(c));
                }
            }
        }
        if !touched(m, w, n, i) {
            assert(!touched(m, w, n - 1, i)) by {
                if touched(m, w, n - 1, i) {
                    let k = choose|k: int|
                        0 <= k < n - 1 && candidates(
                            m,
                            (#[trigger] rounds(m, w, k)).frontier,
                        ).contains(c);
                    assert(candidates(m, rounds(m, w, k).frontier).contains(c));
                }
            }
            assert(!cand.contains(c)) by {
                if cand.contains(c) {
                    assert(candidates(m, rounds(m, w, n - 1).frontier).contains(c));
                }
            }
            lemma_not_cand_state(m, p, cand, g.nx * g.ny, i);
        }
    }
}

/// Rounds move no state and leave goals alone.
pub proof fn lemma_rounds_frame(m: Model, w: Wave, n: int)
    requires
        m.wf(),
        m.grid.located(w.states),
        0 <= n,
    ensures
        m.grid.located(rounds(m, w, n).states),
        same_frame(w.states, rounds(m, w, n).states),
    decreases n,
{
    if n > 0 {
        lemma_rounds_frame(m, w, n - 1);
        let p = rounds(m, w, n - 1);
        lemma_plane_shape(m.grid);
        lemma_plane_frame(m, p, candidates(m, p.frontier), m.grid.nx * m.grid.ny);
        lemma_frame_trans(w.states, p.states, rounds(m, w, n).states);
    } else {
        assert(same_frame(w.states, w.states));
    }
}

proof fn lemma_plane_shape(g: Grid)
    requires
        g.wf(),
    ensures
        0 <= g.nx * g.ny,
{
    assert(0 <= g.nx * g.ny) by (nonlinear_arith)
        requires
            0 <= g.nx,
            0 <= g.ny,
    ;
}

/// An empty frontier is a fixed point: where a solve by planar frontiers has
/// converged, every state that was ever within reach of a frontier has its Bellman
/// value and the action that attains it, and every other state is as it was before.
pub proof fn law_empty_frontier_is_fixed_point(m: Model, w: Wave, n: int, i: int)
    requires
        m.wf(),
        m.grid.located(w.states),
        0 <= n,
        0 <= i < w.states.len(),
        rounds(m, w, n).frontier == Set::<int>::empty(),
    ensures
        touched(m, w, n, i) ==> at_rest(m, rounds(m, w, n).states, i),
        !touched(m, w, n, i) ==> rounds(m, w, n).states[i] == w.states[i],
{
    lemma_rounds_invariant(m, w, n, i);
    let f = rounds(m, w, n).frontier;
    assert(!candidates(m, f).contains(cell_of(m.grid, w.states[i])));
}

/// A converged solve from the cells that have a value leaves every state within
/// reach of one of them with its Bellman value and the action that attains it.
pub proof fn law_converged_around_values(m: Model, s: Seq<State>, n: int, i: int)
    requires
        m.wf(),
        m.grid.located(s),
        0 < n,
        0 <= i < s.len(),
        rounds(m, seeded(m, s), n).frontier == Set::<int>::empty(),
        candidates(m, valued_cells(m.grid, s)).contains(cell_of(m.grid, s[i])),
    ensures
        at_rest(m, rounds(m, seeded(m, s), n).states, i),
{
    let w = seeded(m, s);
    law_empty_frontier_is_fixed_point(m, w, n, i);
    assert(candidates(m, rounds(m, w, 0).frontier).contains(cell_of(m.grid, w.states[i])));
}

} // verus!
