//! What an empty frontier of single states means, when no value that has been reached has
//! risen.
use vstd::prelude::*;

use crate::bounds::{lemma_stays_place, stays_in};
use crate::grid::{index3, on_axis, on_grid};
use crate::model::{
    at_rest, law_best_is_least, lemma_best_place, lemma_best_within, lemma_cost_landing,
    lemma_frame_trans, lemma_heading, lemma_land_same, lemma_upd_keeps, lemma_weighted_place,
    same_cost, same_frame, same_frees, same_place, Model,
};
use crate::solvers::descent::{clean_from, lattice_clean, rounds3_clean};
use crate::solvers::bitboard::{near_heading, near_state, within};
use crate::solvers::displacement::{law_reach_covers, reach, turn_between, Axis};
use crate::solvers::frontier2d::Wave;
use crate::solvers::frontier3d::{candidates3, drops, lattice_pass, round3, rounds3};
use crate::state::{updatable, State};

verus! {

/// No update of a state of `r`, in a pass over the first `n` states, raises a value: unless
/// it was above `cap`, and still is.
pub open spec fn no_rise(
    m: Model,
    w: Wave,
    cand: Set<int>,
    n: int,
    cap: int,
    r: Set<int>,
) -> bool {
    forall|i: int|
        0 <= i < n && cand.contains(i) && r.contains(i) ==> {
            let s = (#[trigger] lattice_pass(m, w, cand, i)).states;
            m.updated(s, i).total_cost <= s[i].total_cost || (cap < s[i].total_cost && cap
                < m.updated(s, i).total_cost)
        }
}

/// No update of a state of `r` in `n` rounds raises a value: unless it was above `cap`, and
/// still is.
pub open spec fn rounds_no_rise(m: Model, w: Wave, n: int, cap: int, r: Set<int>) -> bool {
    forall|k: int|
        0 <= k < n ==> {
            let p = #[trigger] rounds3(m, w, k);
            no_rise(m, p, candidates3(m, p.frontier), m.grid.len(), cap, r)
        }
}

/// The two states have the same value, or both a value above `cap`.
pub open spec fn alike(a: State, b: State, cap: int) -> bool {
    a.total_cost == b.total_cost || (cap < a.total_cost && cap < b.total_cost)
}

/// The states that actions lead to from `st`, where all their outcomes land and stay in
/// `r`, are alike in both fields.
pub open spec fn alike_ahead(
    m: Model,
    s: Seq<State>,
    t: Seq<State>,
    st: State,
    cap: int,
    r: Set<int>,
) -> bool {
    forall|a: int, k: int|
        #![trigger m.actions[a].outcomes(st.it as int)[k]]
        0 <= a < m.actions.len() && 0 <= k < m.actions[a].outcomes(st.it as int).len()
            && m.grid.all_land(s, st, m.actions[a].outcomes(st.it as int)) && stays_in(m, st, a, r)
            ==> alike(
            s[m.grid.succ(st, m.actions[a].outcomes(st.it as int)[k])],
            t[m.grid.succ(st, m.actions[a].outcomes(st.it as int)[k])],
            cap,
        )
}

/// Every action from `st` whose outcomes land stays in `r` or costs more than `cap`.
pub open spec fn dear_out(m: Model, s: Seq<State>, st: State, cap: int, r: Set<int>) -> bool {
    forall|a: int|
        0 <= a < m.actions.len() && m.grid.all_land(
            s,
            st,
            (#[trigger] m.actions[a]).outcomes(st.it as int),
        ) ==> stays_in(m, st, a, r) || cap < m.grid.cost(s, st, m.actions[a])
}

/// State `i` of `t` is as an update left it at the moment `p` of a solve that started from
/// `s`; every other action than those that stay in `r` cost more than `cap` then, and since
/// then nothing ahead of it has changed that had been reached.
pub open spec fn left_by(
    m: Model,
    s: Seq<State>,
    t: Seq<State>,
    p: Seq<State>,
    i: int,
    cap: int,
    r: Set<int>,
) -> bool {
    &&& same_frame(s, p)
    &&& alike_ahead(m, p, t, s[i], cap, r)
    &&& updatable(s[i]) ==> dear_out(m, p, s[i], cap, r)
    &&& updatable(s[i]) ==> {
        &&& t[i].total_cost == m.best(p, s[i], m.actions.len() as int).0
        &&& t[i].optimal_action == m.best(p, s[i], m.actions.len() as int).1
    }
}

/// Such a moment can be found.
pub open spec fn rests(
    m: Model,
    s: Seq<State>,
    t: Seq<State>,
    i: int,
    cap: int,
    r: Set<int>,
) -> bool {
    exists|p: Seq<State>| #[trigger] left_by(m, s, t, p, i, cap, r)
}

pub proof fn lemma_lattice_frame(m: Model, w: Wave, cand: Set<int>, n: int)
    requires
        m.wf(),
        m.grid.located(w.states),
        0 <= n <= m.grid.len(),
    ensures
        m.grid.located(lattice_pass(m, w, cand, n).states),
        same_frame(w.states, lattice_pass(m, w, cand, n).states),
        forall|j: int|
            n <= j < w.states.len() ==> #[trigger] lattice_pass(m, w, cand, n).states[j]
                == w.states[j],
    decreases n,
{
    if n > 0 {
        lemma_lattice_frame(m, w, cand, n - 1);
        let p = lattice_pass(m, w, cand, n - 1).states;
        if cand.contains(n - 1) {
            lemma_upd_keeps(m, p, n - 1);
            lemma_frame_trans(w.states, p, m.upd(p, n - 1));
        }
    } else {
        assert(same_frame(w.states, w.states));
    }
}

proof fn lemma_lattice_grows(m: Model, w: Wave, cand: Set<int>, k: int, n: int)
    requires
        k <= n,
    ensures
        lattice_pass(m, w, cand, k).frontier.subset_of(lattice_pass(m, w, cand, n).frontier),
    decreases n - k,
{
    if k < n {
        lemma_lattice_grows(m, w, cand, k, n - 1);
    }
}

/// States that a pass has gone past do not change any more.
proof fn lemma_lattice_past(m: Model, w: Wave, cand: Set<int>, k: int, n: int, j: int)
    requires
        m.wf(),
        m.grid.located(w.states),
        0 <= j < k <= n <= m.grid.len(),
    ensures
        lattice_pass(m, w, cand, n).states[j] == lattice_pass(m, w, cand, k).states[j],
    decreases n - k,
{
    if k < n {
        lemma_lattice_past(m, w, cand, k, n - 1, j);
        lemma_lattice_frame(m, w, cand, n - 1);
    }
}

/// A state that did not drop keeps its value throughout the pass, if it had been reached.
proof fn lemma_still(
    m: Model,
    w: Wave,
    cand: Set<int>,
    k: int,
    j: int,
    cap: int,
    r: Set<int>,
)
    requires
        m.wf(),
        m.grid.located(w.states),
        no_rise(m, w, cand, m.grid.len(), cap, r),
        0 <= k <= m.grid.len(),
        0 <= j < w.states.len(),
        r.contains(j),
        !lattice_pass(m, w, cand, m.grid.len()).frontier.contains(j),
    ensures
        alike(lattice_pass(m, w, cand, k).states[j], w.states[j], cap),
{
    lemma_lattice_frame(m, w, cand, k);
    if j < k {
        lemma_lattice_past(m, w, cand, j + 1, k, j);
        lemma_lattice_frame(m, w, cand, j);
        lemma_lattice_frame(m, w, cand, j + 1);
        lemma_lattice_grows(m, w, cand, j + 1, m.grid.len());
        let p = lattice_pass(m, w, cand, j).states;
        assert(p[j] == w.states[j]);
        if cand.contains(j) {
            assert(!drops(m, p, j));
        }
    }
}

spec fn none_ahead(m: Model, st: State, f: Set<int>) -> bool {
    forall|a: int, k: int|
        #![trigger m.actions[a].outcomes(st.it as int)[k]]
        0 <= a < m.actions.len() && 0 <= k < m.actions[a].outcomes(st.it as int).len()
            && m.grid.stays(st, m.actions[a].outcomes(st.it as int)[k]) ==> !f.contains(
            m.grid.succ(st, m.actions[a].outcomes(st.it as int)[k]),
        )
}

proof fn lemma_same_frees(s: Seq<State>, t: Seq<State>)
    requires
        same_frame(s, t),
    ensures
        same_frees(s, t),
{
    assert forall|j: int| 0 <= j < s.len() implies (#[trigger] s[j]).free == t[j].free by {
        assert(same_place(s[j], t[j]));
    }
}

/// Two moments of a pass look alike from state `i` of `r` if nothing ahead of it drops.
proof fn lemma_alike_view(
    m: Model,
    w: Wave,
    cand: Set<int>,
    k: int,
    i: int,
    cap: int,
    r: Set<int>,
)
    requires
        m.wf(),
        m.grid.located(w.states),
        no_rise(m, w, cand, m.grid.len(), cap, r),
        0 <= k <= m.grid.len(),
        0 <= i < w.states.len(),
        r.contains(i),
        none_ahead(m, w.states[i], lattice_pass(m, w, cand, m.grid.len()).frontier),
    ensures
        alike_ahead(
            m,
            lattice_pass(m, w, cand, k).states,
            lattice_pass(m, w, cand, m.grid.len()).states,
            w.states[i],
            cap,
            r,
        ),
{
    let g = m.grid;
    let st = w.states[i];
    let p = lattice_pass(m, w, cand, k).states;
    let end = lattice_pass(m, w, cand, g.len()).states;
    lemma_lattice_frame(m, w, cand, k);
    lemma_lattice_frame(m, w, cand, g.len());
    lemma_same_frees(w.states, p);
    assert(g.located_at(w.states[i], i));
    assert forall|a: int, q: int|
        #![trigger m.actions[a].outcomes(st.it as int)[q]]
        0 <= a < m.actions.len() && 0 <= q < m.actions[a].outcomes(st.it as int).len()
            && g.all_land(p, st, m.actions[a].outcomes(st.it as int)) && stays_in(m, st, a, r)
            implies alike(
        p[g.succ(st, m.actions[a].outcomes(st.it as int)[q])],
        end[g.succ(st, m.actions[a].outcomes(st.it as int)[q])],
        cap,
    ) by {
        let trs = m.actions[a].outcomes(st.it as int);
        lemma_land_same(m, w.states, p, st, st, a);
        assert(g.lands(p, st, trs[q]));
        let j = g.succ(st, trs[q]);
        assert(0 <= g.succ(st, m.actions[a].outcomes(st.it as int)[q]) < w.states.len());
        assert(r.contains(g.succ(st, m.actions[a].outcomes(st.it as int)[q])));
        lemma_still(m, w, cand, k, j, cap, r);
        lemma_still(m, w, cand, g.len(), j, cap, r);
    }
}

/// If no member of `f` is within reach of a state, then none is ahead of it.
proof fn lemma_out_of_reach3(m: Model, s: Seq<State>, i: int, f: Set<int>)
    requires
        m.wf(),
        m.grid.located(s),
        0 <= i < s.len(),
        !candidates3(m, f).contains(i),
    ensures
        none_ahead(m, s[i], f),
{
    let g = m.grid;
    let st = s[i];
    assert(g.located_at(s[i], i));
    let (dx, dy, dt) = (reach(m, Axis::X), reach(m, Axis::Y), reach(m, Axis::Heading));
    assert forall|a: int, k: int|
        #![trigger m.actions[a].outcomes(st.it as int)[k]]
        0 <= a < m.actions.len() && 0 <= k < m.actions[a].outcomes(st.it as int).len() && g.stays(
            st,
            m.actions[a].outcomes(st.it as int)[k],
        ) implies !f.contains(g.succ(st, m.actions[a].outcomes(st.it as int)[k])) by {
        let tr = m.actions[a].outcomes(st.it as int)[k];
        assert(g.action_ok(m.actions[a]));
        assert(g.outcome_ok(m.actions[a].outcomes(st.it as int)[k]));
        lemma_heading(g, tr);
        let (x2, y2, t2) = (st.ix + tr.dix, st.iy + tr.diy, g.heading(tr));
        law_reach_covers(m, Axis::X, a, st.it as int, k);
        law_reach_covers(m, Axis::Y, a, st.it as int, k);
        law_reach_covers(m, Axis::Heading, a, st.it as int, k);
        if f.contains(g.succ(st, tr)) {
            assert(f.contains(index3(x2, y2, t2, g.nx, g.nt)));
            assert(turn_between(st.it as int, t2, g.nt) <= dt);
            assert(near_heading(f, g.nx, g.nt, x2, y2, st.it as int, dt));
            assert(within(st.ix as int, x2, dx) && within(st.iy as int, y2, dy));
            assert(near_state(
                f,
                g.nx,
                g.ny,
                g.nt,
                st.ix as int,
                st.iy as int,
                st.it as int,
                dx,
                dy,
                dt,
            ));
            assert(candidates3(m, f).contains(i));
        }
    }
}

/// State `i` has been within reach of a frontier by the start of round `n`.
pub open spec fn touched3(m: Model, w: Wave, n: int, i: int) -> bool {
    exists|k: int|
        0 <= k < n && candidates3(m, (#[trigger] rounds3(m, w, k)).frontier).contains(i)
}

/// A pass leaves the states that it does not evaluate alone.
proof fn lemma_not_cand3(m: Model, w: Wave, cand: Set<int>, n: int, i: int)
    requires
        !cand.contains(i),
        0 <= i < w.states.len(),
        n <= w.states.len(),
    ensures
        lattice_pass(m, w, cand, n).states.len() == w.states.len(),
        lattice_pass(m, w, cand, n).states[i] == w.states[i],
    decreases n,
{
    if n > 0 {
        lemma_not_cand3(m, w, cand, n - 1, i);
    }
}

/// The state of a solve between rounds: every state of `r` that has been touched rests, or
/// is within reach of the frontier; every other is as it was.
proof fn lemma_rounds3_invariant(m: Model, w: Wave, n: int, i: int, cap: int, r: Set<int>)
    requires
        m.wf(),
        m.grid.located(w.states),
        0 <= n,
        0 <= i < w.states.len(),
        r.contains(i),
        rounds_no_rise(m, w, n, cap, r),
        rounds3_clean(m, w, n, cap, r),
    ensures
        rests(m, w.states, rounds3(m, w, n).states, i, cap, r) || candidates3(
            m,
            rounds3(m, w, n).frontier,
        ).contains(i) || !touched3(m, w, n, i),
        !touched3(m, w, n, i) ==> rounds3(m, w, n).states[i] == w.states[i],
    decreases n,
{
    let g = m.grid;
    let s = w.states;
    if n > 0 {
        assert forall|k: int| 0 <= k < n - 1 implies {
            let p = #[trigger] rounds3(m, w, k);
            no_rise(m, p, candidates3(m, p.frontier), m.grid.len(), cap, r)
        } by {}
        assert(rounds3_clean(m, w, n - 1, cap, r));
        lemma_rounds3_invariant(m, w, n - 1, i, cap, r);
        lemma_rounds3_frame(m, w, n - 1);
        let p = rounds3(m, w, n - 1);
        let cand = candidates3(m, p.frontier);
        let q = round3(m, p);
        assert(no_rise(m, p, cand, g.len(), cap, r));
        lemma_lattice_frame(m, p, cand, g.len());
        assert(same_place(s[i], p.states[i]));
        assert(g.located_at(s[i], i));
        assert(g.located_at(p.states[i], i));
        if touched3(m, w, n - 1, i) {
            let k = choose|k: int|
                0 <= k < n - 1 && candidates3(m, (#[trigger] rounds3(m, w, k)).frontier).contains(
                    i,
                );
            assert(candidates3(m, rounds3(m, w, k).frontier).contains(i));
            assert(touched3(m, w, n, i));
        }
        if cand.contains(i) {
            assert(candidates3(m, rounds3(m, w, n - 1).frontier).contains(i));
            assert(touched3(m, w, n, i));
        } else {
            lemma_not_cand3(m, p, cand, g.len(), i);
        }
        if touched3(m, w, n, i) && !touched3(m, w, n - 1, i) {
            let k = choose|k: int|
                0 <= k < n && candidates3(m, (#[trigger] rounds3(m, w, k)).frontier).contains(i);
            assert(k == n - 1);
        }
        if touched3(m, w, n, i) && !candidates3(m, q.frontier).contains(i) {
            lemma_out_of_reach3(m, p.states, i, q.frontier);
            if cand.contains(i) {
                let x = lattice_pass(m, p, cand, i).states;
                lemma_lattice_frame(m, p, cand, i);
                lemma_lattice_frame(m, p, cand, i + 1);
                lemma_lattice_past(m, p, cand, i + 1, g.len(), i);
                lemma_alike_view(m, p, cand, i, i, cap, r);
                lemma_frame_trans(s, p.states, x);
                assert(x[i] == p.states[i]);
                lemma_best_place(m, x, s[i], p.states[i], m.actions.len() as int);
                law_best_is_least(m, x, x[i], m.actions.len() as int);
                lemma_alike_place(m, x, q.states, p.states[i], s[i], cap, r);
                assert(lattice_clean(m, p, cand, g.len(), cap, r));
                if updatable(s[i]) {
                    assert(clean_from(m, x, x[i], cap, r));
                    lemma_clean_is_dear(m, x, x[i], s[i], cap, r);
                }
                assert(left_by(m, s, q.states, x, i, cap, r));
            } else {
                assert(rests(m, s, p.states, i, cap, r));
                let x = choose|x: Seq<State>| #[trigger] left_by(m, s, p.states, x, i, cap, r);
                lemma_alike_view(m, p, cand, 0, i, cap, r);
                lemma_alike_place(m, p.states, q.states, p.states[i], s[i], cap, r);
                lemma_same_frees(s, x);
                lemma_same_frees(s, p.states);
                assert(alike_ahead(m, x, q.states, s[i], cap, r)) by {
                    assert forall|a: int, k: int|
                        #![trigger m.actions[a].outcomes(s[i].it as int)[k]]
                        0 <= a < m.actions.len() && 0 <= k < m.actions[a].outcomes(
                            s[i].it as int,
                        ).len() && g.all_land(
                            x,
                            s[i],
                            m.actions[a].outcomes(s[i].it as int),
                        ) && stays_in(m, s[i], a, r) implies alike(
                        x[g.succ(s[i], m.actions[a].outcomes(s[i].it as int)[k])],
                        q.states[g.succ(s[i], m.actions[a].outcomes(s[i].it as int)[k])],
                        cap,
                    ) by {
                        lemma_land_same(m, s, x, s[i], s[i], a);
                        lemma_land_same(m, s, p.states, s[i], s[i], a);
                    }
                }
                assert(left_by(m, s, q.states, x, i, cap, r));
            }
        }
    }
}

/// Clean sums are dear where they lead out.
proof fn lemma_clean_is_dear(m: Model, s: Seq<State>, x: State, y: State, cap: int, r: Set<int>)
    requires
        clean_from(m, s, x, cap, r),
        x.ix == y.ix,
        x.iy == y.iy,
        x.it == y.it,
    ensures
        dear_out(m, s, y, cap, r),
{
    let g = m.grid;
    assert forall|a: int|
        0 <= a < m.actions.len() && g.all_land(
            s,
            y,
            (#[trigger] m.actions[a]).outcomes(y.it as int),
        ) implies stays_in(m, y, a, r) || cap < g.cost(s, y, m.actions[a]) by {
        let trs = m.actions[a].outcomes(x.it as int);
        assert forall|j: int| 0 <= j < trs.len() implies g.lands(s, x, #[trigger] trs[j]) by {
            assert(g.lands(s, y, trs[j]));
        }
        assert(g.all_land(s, x, m.actions[a].outcomes(x.it as int)));
        lemma_weighted_place(g, s, x, y, trs, trs.len() as int);
        if stays_in(m, x, a, r) {
            lemma_stays_place(m, x, y, a, r);
        }
    }
}

/// What lies ahead goes by place.
proof fn lemma_alike_place(
    m: Model,
    s: Seq<State>,
    t: Seq<State>,
    a: State,
    b: State,
    cap: int,
    r: Set<int>,
)
    requires
        alike_ahead(m, s, t, a, cap, r),
        a.ix == b.ix,
        a.iy == b.iy,
        a.it == b.it,
    ensures
        alike_ahead(m, s, t, b, cap, r),
{
    let g = m.grid;
    assert forall|c: int, k: int|
        #![trigger m.actions[c].outcomes(b.it as int)[k]]
        0 <= c < m.actions.len() && 0 <= k < m.actions[c].outcomes(b.it as int).len()
            && g.all_land(s, b, m.actions[c].outcomes(b.it as int)) && stays_in(m, b, c, r)
            implies alike(
        s[g.succ(b, m.actions[c].outcomes(b.it as int)[k])],
        t[g.succ(b, m.actions[c].outcomes(b.it as int)[k])],
        cap,
    ) by {
        let trs = m.actions[c].outcomes(a.it as int);
        assert(g.all_land(s, a, trs)) by {
            assert forall|j: int| 0 <= j < trs.len() implies g.lands(s, a, #[trigger] trs[j]) by {
                assert(g.lands(s, b, trs[j]));
            }
        }
        lemma_stays_place(m, b, a, c, r);
        assert(m.actions[c].outcomes(a.it as int)[k] == trs[k]);
    }
}

/// Rounds move no state and leave goals alone.
pub proof fn lemma_rounds3_frame(m: Model, w: Wave, n: int)
    requires
        m.wf(),
        m.grid.located(w.states),
        0 <= n,
    ensures
        m.grid.located(rounds3(m, w, n).states),
        same_frame(w.states, rounds3(m, w, n).states),
    decreases n,
{
    if n > 0 {
        lemma_rounds3_frame(m, w, n - 1);
        let p = rounds3(m, w, n - 1);
        assert(0 <= m.grid.len());
        lemma_lattice_frame(m, p, candidates3(m, p.frontier), m.grid.len());
        lemma_frame_trans(w.states, p.states, rounds3(m, w, n).states);
    } else {
        assert(same_frame(w.states, w.states));
    }
}

/// All that actions lead to from state `i`, where they land and stay in `r`, has a value of
/// at most `cap`.
pub open spec fn reached_ahead(m: Model, t: Seq<State>, i: int, cap: int, r: Set<int>) -> bool {
    forall|a: int, k: int|
        #![trigger m.actions[a].outcomes(t[i].it as int)[k]]
        0 <= a < m.actions.len() && 0 <= k < m.actions[a].outcomes(t[i].it as int).len()
            && m.grid.all_land(t, t[i], m.actions[a].outcomes(t[i].it as int)) && stays_in(
            m,
            t[i],
            a,
            r,
        ) ==> t[m.grid.succ(t[i], m.actions[a].outcomes(t[i].it as int)[k])].total_cost <= cap
}

/// A solve by spatial frontiers has converged, and on the way whatever did not stay in `r`
/// and surely lead to where the value is at most `cap` came out above `cap`, and no update
/// raised a value in `r` that had been reached. Then every state of `r` that was ever within
/// reach of a frontier has its Bellman value and the action that attains it: if it has been
/// reached, and so has all ahead of it in `r`, and leaving `r` still costs more than that.
/// Every state of `r` that never was within reach is as it was before.
pub proof fn law_empty_frontier3_is_fixed_point(
    m: Model,
    w: Wave,
    n: int,
    i: int,
    cap: int,
    r: Set<int>,
)
    requires
        m.wf(),
        m.grid.located(w.states),
        0 <= n,
        0 <= i < w.states.len(),
        r.contains(i),
        rounds_no_rise(m, w, n, cap, r),
        rounds3_clean(m, w, n, cap, r),
        rounds3(m, w, n).frontier == Set::<int>::empty(),
    ensures
        ({
            let t = rounds3(m, w, n).states;
            &&& touched3(m, w, n, i) && t[i].total_cost <= cap && reached_ahead(m, t, i, cap, r)
                && dear_out(m, t, t[i], cap, r) ==> at_rest(m, t, i)
            &&& !touched3(m, w, n, i) ==> t[i] == w.states[i]
        }),
{
    lemma_rounds3_invariant(m, w, n, i, cap, r);
    lemma_rounds3_frame(m, w, n);
    let g = m.grid;
    let s = w.states;
    let t = rounds3(m, w, n).states;
    let f = rounds3(m, w, n).frontier;
    assert(!candidates3(m, f).contains(i)) by {
        if candidates3(m, f).contains(i) {
            let (dx, dy, dt) = (reach(m, Axis::X), reach(m, Axis::Y), reach(m, Axis::Heading));
            let (x, y, t) = choose|x: int, y: int, t: int|
                #![trigger near_state(f, g.nx, g.ny, g.nt, x, y, t, dx, dy, dt)]
                on_grid(x, y, t, g.nx, g.ny, g.nt) && i == index3(x, y, t, g.nx, g.nt)
                    && near_state(f, g.nx, g.ny, g.nt, x, y, t, dx, dy, dt);
            let (x2, y2) = choose|x2: int, y2: int|
                on_axis(x2, g.nx) && on_axis(y2, g.ny) && within(x, x2, dx) && within(y, y2, dy)
                    && #[trigger] near_heading(f, g.nx, g.nt, x2, y2, t, dt);
            assert(false);
        }
    }
    if touched3(m, w, n, i) && updatable(t[i]) && t[i].total_cost <= cap && reached_ahead(
        m,
        t,
        i,
        cap,
        r,
    ) && dear_out(m, t, t[i], cap, r) {
        let p = choose|p: Seq<State>| #[trigger] left_by(m, s, t, p, i, cap, r);
        let na = m.actions.len() as int;
        assert(same_place(s[i], t[i]));
        assert(g.located_at(s[i], i));
        lemma_same_frees(s, p);
        lemma_same_frees(s, t);
        assert(g.located(p)) by {
            assert forall|j: int| 0 <= j < p.len() implies g.located_at(#[trigger] p[j], j) by {
                assert(g.located_at(s[j], j));
                assert(same_place(s[j], p[j]));
            }
        }
        assert forall|a: int| 0 <= a < m.actions.len() implies {
            let (x, y) = (
                g.cost(p, s[i], #[trigger] m.actions[a]),
                g.cost(t, s[i], m.actions[a]),
            );
            x == y || (cap < x && cap < y)
        } by {
            lemma_alike_cost(m, s, p, t, i, a, cap, r);
        }
        lemma_best_within(m, p, t, s[i], na, cap);
        lemma_best_place(m, t, s[i], t[i], na);
        law_best_is_least(m, t, t[i], na);
        law_best_is_least(m, p, s[i], na);
        assert(t[i] == m.updated(t, i));
    }
}

/// Since the moment `p`, actions from state `i` cost the same, or cost too much.
proof fn lemma_alike_cost(
    m: Model,
    s: Seq<State>,
    p: Seq<State>,
    t: Seq<State>,
    i: int,
    a: int,
    cap: int,
    r: Set<int>,
)
    requires
        m.wf(),
        m.grid.located(s),
        m.grid.located(p),
        same_frame(s, t),
        0 <= i < s.len(),
        updatable(s[i]),
        left_by(m, s, t, p, i, cap, r),
        reached_ahead(m, t, i, cap, r),
        dear_out(m, t, t[i], cap, r),
        0 <= a < m.actions.len(),
    ensures
        m.grid.cost(p, s[i], m.actions[a]) == m.grid.cost(t, s[i], m.actions[a]) || (cap
            < m.grid.cost(p, s[i], m.actions[a]) && cap < m.grid.cost(t, s[i], m.actions[a])),
{
    let g = m.grid;
    let trs = m.actions[a].outcomes(s[i].it as int);
    assert(same_place(s[i], t[i]));
    assert(g.located_at(s[i], i));
    lemma_same_frees(s, p);
    lemma_same_frees(s, t);
    lemma_land_same(m, s, p, s[i], s[i], a);
    lemma_land_same(m, s, t, s[i], t[i], a);
    lemma_land_same(m, s, t, s[i], s[i], a);
    lemma_weighted_place(g, t, s[i], t[i], trs, trs.len() as int);
    assert(same_frees(p, t)) by {
        assert forall|j: int| 0 <= j < p.len() implies (#[trigger] p[j]).free == t[j].free by {
            assert(s[j].free == p[j].free && s[j].free == t[j].free);
        }
    }
    if stays_in(m, s[i], a, r) {
        lemma_stays_place(m, s[i], t[i], a, r);
        assert(g.all_land(p, s[i], trs) ==> forall|k: int|
            0 <= k < trs.len() ==> same_cost(
                p[g.succ(s[i], #[trigger] m.actions[a].outcomes(s[i].it as int)[k])],
                t[g.succ(s[i], m.actions[a].outcomes(s[i].it as int)[k])],
            )) by {
            assert forall|k: int| 0 <= k < trs.len() && g.all_land(p, s[i], trs) implies same_cost(
                p[g.succ(s[i], #[trigger] m.actions[a].outcomes(s[i].it as int)[k])],
                t[g.succ(s[i], m.actions[a].outcomes(s[i].it as int)[k])],
            ) by {
                let j = g.succ(s[i], m.actions[a].outcomes(s[i].it as int)[k]);
                assert(t[g.succ(t[i], m.actions[a].outcomes(t[i].it as int)[k])].total_cost <= cap);
                assert(same_place(s[j], p[j]));
                assert(same_place(s[j], t[j]));
            }
        }
        lemma_cost_landing(m, p, t, s[i], a);
    } else if g.all_land(p, s[i], trs) {
        assert(!stays_in(m, t[i], a, r)) by {
            if stays_in(m, t[i], a, r) {
                lemma_stays_place(m, t[i], s[i], a, r);
            }
        }
        assert(g.all_land(t, t[i], m.actions[a].outcomes(t[i].it as int)));
    }
}

} // verus!
