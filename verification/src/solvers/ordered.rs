//! Ordered sweep: states are updated in the order of their present values, and only
//! those whose successors have moved.
//!
//! Started from a field of upper bounds, one pass carries a correction along a whole
//! path, because successors come before the states that lead to them.
use vstd::prelude::*;

use crate::action::{Action, StateTransition};
use crate::grid::{lemma_index_bound, on_axis, on_grid};
use crate::model::{
    consistent, law_best_is_least, lemma_best_local, lemma_best_place, lemma_frame_trans,
    lemma_heading,
    lemma_located, lemma_succ_bound, same_ahead, same_cost, same_frame, same_place, Grid, Model,
};
use crate::params::MAX_COST;
use crate::solvers::bitboard::flag_set;
use crate::state::{updatable, State};
use crate::value_iterator::{min_action_cost, wrap_heading, ValueIterator};

verus! {

/// Width of a bucket of values, as a power of two.
pub const BUCKET_SHIFT: u32 = 16;

/// Values above this many buckets share the last one.
pub const MAX_BUCKETS: u64 = 16_384;

/// How an ordered sweep ended.
#[derive(Clone, Copy, Debug, PartialEq, Eq, Structural)]
pub struct OrderedOutcome {
    pub passes: u32,
    /// States that were evaluated.
    pub updates: u64,
    pub converged: bool,
}

/// The bucket of a value.
pub open spec fn bucket(v: u64) -> int {
    let b = v as int / 65_536;
    if v >= MAX_COST || b > MAX_BUCKETS {
        MAX_BUCKETS as int
    } else {
        b
    }
}

/// A way into a heading: the cell offset of the outcome, and the heading it comes
/// from.
pub type Way = (i32, i32, i32);

/// `w` is a way into the heading `it` that some action has.
pub open spec fn is_way(m: Model, it: int, w: Way) -> bool {
    exists|a: int, k: int|
        #![trigger m.actions[a].outcomes(w.2 as int)[k]]
        0 <= a < m.actions.len() && 0 <= w.2 < m.grid.nt && 0 <= k < m.actions[a].outcomes(
            w.2 as int,
        ).len() && {
            let tr = m.actions[a].outcomes(w.2 as int)[k];
            tr.dix == w.0 && tr.diy == w.1 && m.grid.heading(tr) == it
        }
}

/// `rev` lists, for each heading, the ways into it: all of them, and nothing else.
pub open spec fn is_rev(m: Model, rev: Seq<Seq<Way>>) -> bool {
    &&& rev.len() == m.grid.nt
    &&& forall|it: int, w: Way|
        0 <= it < m.grid.nt ==> (#[trigger] rev[it].contains(w) <==> is_way(m, it, w))
}

/// The state that leads to `st` by the way `w`, if that is one to be updated.
pub open spec fn origin_of(g: Grid, s: Seq<State>, st: State, w: Way) -> Option<int> {
    let (x, y) = (st.ix - w.0, st.iy - w.1);
    let i = g.at(x, y, w.2 as int);
    if on_axis(x, g.nx) && on_axis(y, g.ny) && updatable(s[i]) {
        Some(i)
    } else {
        None
    }
}

/// A sweep in progress: the states, those that wait to be evaluated, and the list of
/// those that were added last.
#[verifier::ext_equal]
pub struct Work {
    pub states: Seq<State>,
    pub dirty: Set<int>,
    pub next: Seq<int>,
}

/// The origins of `st` by the first `n` ways wait now; those that did not already
/// are listed.
pub open spec fn marked(g: Grid, w: Work, st: State, ways: Seq<Way>, n: int) -> Work
    decreases n,
{
    if n <= 0 {
        w
    } else {
        let p = marked(g, w, st, ways, n - 1);
        match origin_of(g, p.states, st, ways[n - 1]) {
            Some(i) => if p.dirty.contains(i) {
                p
            } else {
                Work { dirty: p.dirty.insert(i), next: p.next.push(i), ..p }
            },
            None => p,
        }
    }
}

/// The states with the Bellman value of state `i`.
pub open spec fn valued(m: Model, s: Seq<State>, i: int) -> Seq<State> {
    s.update(i, State { total_cost: m.bellman(s, i).0 as u64, ..s[i] })
}

/// State `i` is evaluated; if its value moves, its origins wait.
pub open spec fn evaluated(m: Model, rev: Seq<Seq<Way>>, w: Work, i: int) -> Work {
    let d = w.dirty.remove(i);
    let st = w.states[i];
    if m.bellman(w.states, i).0 != st.total_cost {
        let ways = rev[st.it as int];
        marked(
            m.grid,
            Work { states: valued(m, w.states, i), dirty: d, next: w.next },
            st,
            ways,
            ways.len() as int,
        )
    } else {
        Work { dirty: d, ..w }
    }
}

/// The first `n` states of `order` are evaluated in turn.
pub open spec fn pass(m: Model, rev: Seq<Seq<Way>>, w: Work, order: Seq<int>, n: int) -> Work
    decreases n,
{
    if n <= 0 {
        w
    } else {
        evaluated(m, rev, pass(m, rev, w, order, n - 1), order[n - 1])
    }
}

/// Those of the first `n` items whose values are in bucket `b`.
pub open spec fn bucket_items(s: Seq<State>, items: Seq<int>, b: int, n: int) -> Seq<int>
    decreases n,
{
    if n <= 0 {
        Seq::empty()
    } else {
        let p = bucket_items(s, items, b, n - 1);
        if bucket(s[items[n - 1]].total_cost) == b {
            p.push(items[n - 1])
        } else {
            p
        }
    }
}

/// The items whose values are in the first `n` buckets, bucket by bucket.
pub open spec fn by_bucket(s: Seq<State>, items: Seq<int>, n: int) -> Seq<int>
    decreases n,
{
    if n <= 0 {
        Seq::empty()
    } else {
        by_bucket(s, items, n - 1) + bucket_items(s, items, n - 1, items.len() as int)
    }
}

/// The items in the order of a pass.
pub open spec fn pass_order(s: Seq<State>, items: Seq<int>) -> Seq<int> {
    by_bucket(s, items, MAX_BUCKETS + 1)
}

/// A sweep between two passes: `next` of the work holds what the next pass
/// evaluates.
#[verifier::ext_equal]
pub struct Sweep {
    pub work: Work,
    pub updates: int,
}

/// The states to be updated among the first `n`.
pub open spec fn open_states(s: Seq<State>, n: int) -> Seq<int>
    decreases n,
{
    if n <= 0 {
        Seq::empty()
    } else {
        let p = open_states(s, n - 1);
        if updatable(s[n - 1]) {
            p.push(n - 1)
        } else {
            p
        }
    }
}

/// The sweep after `n` passes over the field `s`; the first evaluates everything.
pub open spec fn sweep(m: Model, rev: Seq<Seq<Way>>, s: Seq<State>, n: int) -> Sweep
    decreases n,
{
    if n <= 0 {
        let all = open_states(s, s.len() as int);
        Sweep { work: Work { states: s, dirty: all.to_set(), next: all }, updates: 0 }
    } else {
        let p = sweep(m, rev, s, n - 1);
        let order = pass_order(p.work.states, p.work.next);
        Sweep {
            work: pass(
                m,
                rev,
                Work { next: Seq::empty(), ..p.work },
                order,
                order.len() as int,
            ),
            updates: p.updates + order.len(),
        }
    }
}

/// The states with the best action for their values.
pub open spec fn with_policy(m: Model, s: Seq<State>) -> Seq<State> {
    Seq::new(
        s.len(),
        |i: int|
            if updatable(s[i]) {
                State { optimal_action: m.bellman(s, i).1, ..s[i] }
            } else {
                s[i]
            },
    )
}

/// Every state to be updated has its Bellman value, or waits.
pub open spec fn all_wait(m: Model, s: Seq<State>, dirty: Set<int>) -> bool {
    forall|i: int| 0 <= i < s.len() ==> #[trigger] consistent(m, s, i) || dirty.contains(i)
}

/// A value that moved is seen by those states only that have a way to it.
proof fn lemma_unseen(m: Model, rev: Seq<Seq<Way>>, s: Seq<State>, t: Seq<State>, p: int, i: int)
    requires
        m.wf(),
        m.grid.located(s),
        is_rev(m, rev),
        0 <= p < s.len(),
        0 <= i < s.len(),
        i != p,
        t == s.update(p, t[p]),
        updatable(s[i]),
        forall|w: Way|
            rev[s[p].it as int].contains(w) ==> #[trigger] origin_of(m.grid, s, s[p], w) != Some(i),
    ensures
        m.bellman(t, i) == m.bellman(s, i),
{
    let g = m.grid;
    let st = s[i];
    assert(g.located_at(s[i], i));
    assert(g.located_at(s[p], p));
    assert(same_ahead(m, s, t, st)) by {
        assert forall|a: int, k: int|
            #![trigger m.actions[a].outcomes(st.it as int)[k]]
            0 <= a < m.actions.len() && 0 <= k < m.actions[a].outcomes(st.it as int).len()
                && g.stays(st, m.actions[a].outcomes(st.it as int)[k]) implies same_cost(
            s[g.succ(st, m.actions[a].outcomes(st.it as int)[k])],
            t[g.succ(st, m.actions[a].outcomes(st.it as int)[k])],
        ) by {
            let tr = m.actions[a].outcomes(st.it as int)[k];
            assert(g.action_ok(m.actions[a]));
            assert(g.outcome_ok(m.actions[a].outcomes(st.it as int)[k]));
            lemma_succ_bound(g, st, tr);
            lemma_heading(g, tr);
            let j = g.succ(st, tr);
            if j == p {
                lemma_located(g, s, st.ix + tr.dix, st.iy + tr.diy, g.heading(tr));
                let w: Way = (tr.dix, tr.diy, st.it);
                assert(is_way(m, s[p].it as int, w));
                assert(rev[s[p].it as int].contains(w));
                assert(origin_of(g, s, s[p], w) == Some(i));
            }
        }
    }
    lemma_best_local(m, s, t, st, m.actions.len() as int);
}

proof fn lemma_marked(g: Grid, w: Work, st: State, ways: Seq<Way>, n: int)
    requires
        n <= ways.len(),
    ensures
        ({
            let r = marked(g, w, st, ways, n);
            &&& r.states == w.states
            &&& w.dirty.subset_of(r.dirty)
            &&& forall|k: int|
                0 <= k < n ==> (#[trigger] origin_of(g, w.states, st, ways[k]) matches Some(i)
                    ==> r.dirty.contains(i))
        }),
    decreases n,
{
    if n > 0 {
        lemma_marked(g, w, st, ways, n - 1);
    }
}

/// An evaluation keeps every state consistent or waiting.
proof fn lemma_evaluated(m: Model, rev: Seq<Seq<Way>>, w: Work, p: int)
    requires
        m.wf(),
        m.grid.located(w.states),
        is_rev(m, rev),
        0 <= p < w.states.len(),
        updatable(w.states[p]),
        all_wait(m, w.states, w.dirty),
    ensures
        all_wait(m, evaluated(m, rev, w, p).states, evaluated(m, rev, w, p).dirty),
{
    let s = w.states;
    let e = evaluated(m, rev, w, p);
    let d = w.dirty.remove(p);
    law_best_is_least(m, s, s[p], m.actions.len() as int);
    let v = m.bellman(s, p).0;
    if v != s[p].total_cost {
        let t = valued(m, s, p);
        let ways = rev[s[p].it as int];
        assert(m.grid.located_at(s[p], p));
        lemma_marked(
            m.grid,
            Work { states: t, dirty: d, next: w.next },
            s[p],
            ways,
            ways.len() as int,
        );
        assert forall|i: int| 0 <= i < t.len() implies #[trigger] consistent(m, t, i)
            || e.dirty.contains(i) by {
            if updatable(t[i]) && !e.dirty.contains(i) {
                assert forall|x: Way| ways.contains(x) implies #[trigger] origin_of(
                    m.grid,
                    s,
                    s[p],
                    x,
                ) != Some(i) by {
                    let k = choose|k: int| 0 <= k < ways.len() && ways[k] == x;
                    if origin_of(m.grid, s, s[p], x) == Some(i) {
                        assert(origin_of(m.grid, t, s[p], ways[k]) == Some(i));
                    }
                }
                if i == p {
                    lemma_self_unseen(m, rev, s, t, p);
                } else {
                    lemma_unseen(m, rev, s, t, p, i);
                    assert(consistent(m, s, i));
                }
            }
        }
    } else {
        assert forall|i: int| 0 <= i < s.len() implies #[trigger] consistent(m, s, i)
            || e.dirty.contains(i) by {}
    }
}

/// A state that no action leads back to keeps its Bellman value when it takes it.
proof fn lemma_self_unseen(m: Model, rev: Seq<Seq<Way>>, s: Seq<State>, t: Seq<State>, p: int)
    requires
        m.wf(),
        m.grid.located(s),
        is_rev(m, rev),
        0 <= p < s.len(),
        t == valued(m, s, p),
        updatable(s[p]),
        forall|w: Way|
            rev[s[p].it as int].contains(w) ==> #[trigger] origin_of(m.grid, s, s[p], w) != Some(p),
    ensures
        consistent(m, t, p),
{
    let g = m.grid;
    let st = s[p];
    law_best_is_least(m, s, s[p], m.actions.len() as int);
    assert(g.located_at(s[p], p));
    assert(same_ahead(m, s, t, st)) by {
        assert forall|a: int, k: int|
            #![trigger m.actions[a].outcomes(st.it as int)[k]]
            0 <= a < m.actions.len() && 0 <= k < m.actions[a].outcomes(st.it as int).len()
                && g.stays(st, m.actions[a].outcomes(st.it as int)[k]) implies same_cost(
            s[g.succ(st, m.actions[a].outcomes(st.it as int)[k])],
            t[g.succ(st, m.actions[a].outcomes(st.it as int)[k])],
        ) by {
            let tr = m.actions[a].outcomes(st.it as int)[k];
            assert(g.action_ok(m.actions[a]));
            assert(g.outcome_ok(m.actions[a].outcomes(st.it as int)[k]));
            lemma_succ_bound(g, st, tr);
            lemma_heading(g, tr);
            let j = g.succ(st, tr);
            if j == p {
                lemma_located(g, s, st.ix + tr.dix, st.iy + tr.diy, g.heading(tr));
                let w: Way = (tr.dix, tr.diy, st.it);
                assert(is_way(m, s[p].it as int, w));
                assert(rev[s[p].it as int].contains(w));
                assert(origin_of(g, s, s[p], w) == Some(p));
            }
        }
    }
    lemma_best_local(m, s, t, st, m.actions.len() as int);
    lemma_best_place(m, t, st, t[p], m.actions.len() as int);
}

/// The ways into every heading.
fn build_rev_theta(vi: &ValueIterator) -> (rev: Vec<Vec<Way>>)
    requires
        vi.wf(),
    ensures
        is_rev(vi.model(), rev@.map_values(|v: Vec<Way>| v@)),
        rev@.len() == vi.grid().nt,
{
    let ghost m = vi.model();
    let ghost g = m.grid;
    let nt: i32 = vi.cell_num_t;
    let mut rev: Vec<Vec<Way>> = Vec::new();
    let mut it: i32 = 0;
    while it < nt
        invariant
            0 <= it <= nt,
            rev@.len() == it,
            forall|j: int| 0 <= j < it ==> (#[trigger] rev@[j])@.len() == 0,
        decreases nt - it,
    {
        rev.push(Vec::new());
        it += 1;
    }
    proof {
        assert forall|j: int, w: Way| 0 <= j < nt implies (#[trigger] rev@[j]@.contains(w)
            <==> way_before(m, j, w, 0, 0, 0)) by {
            assert(rev@[j]@.len() == 0);
        }
    }
    let mut a: usize = 0;
    while a < vi.actions.len()
        invariant
            a <= vi.actions.len(),
            m == vi.model(),
            m.wf(),
            g == m.grid,
            nt == g.nt,
            nt == vi.cell_num_t,
            rev@.len() == nt,
            forall|j: int, w: Way|
                0 <= j < nt ==> (#[trigger] rev@[j]@.contains(w) <==> way_before(
                    m,
                    j,
                    w,
                    a as int,
                    0,
                    0,
                )),
        decreases vi.actions.len() - a,
    {
        let act: &Action = &vi.actions[a];
        assert(g.action_ok(m.actions[a as int]));
        let mut t: i32 = 0;
        while t < nt
            invariant
                0 <= t <= nt,
                a < vi.actions.len(),
                m == vi.model(),
                m.wf(),
                g == m.grid,
                nt == g.nt,
                *act == m.actions[a as int],
                g.action_ok(*act),
                rev@.len() == nt,
                forall|j: int, w: Way|
                    0 <= j < nt ==> (#[trigger] rev@[j]@.contains(w) <==> way_before(
                        m,
                        j,
                        w,
                        a as int,
                        t as int,
                        0,
                    )),
            decreases nt - t,
        {
            let trs: &Vec<StateTransition> = &act.state_transitions[t as usize];
            assert(trs@ == act.outcomes(t as int));
            let mut k: usize = 0;
            while k < trs.len()
                invariant
                    k <= trs.len(),
                    0 <= t < nt,
                    a < vi.actions.len(),
                    m == vi.model(),
                    m.wf(),
                    g == m.grid,
                    nt == g.nt,
                    *act == m.actions[a as int],
                    g.action_ok(*act),
                    trs@ == act.outcomes(t as int),
                    rev@.len() == nt,
                    forall|j: int, w: Way|
                        0 <= j < nt ==> (#[trigger] rev@[j]@.contains(w) <==> way_before(
                            m,
                            j,
                            w,
                            a as int,
                            t as int,
                            k as int,
                        )),
                decreases trs.len() - k,
            {
                let tr: StateTransition = trs[k];
                assert(g.outcome_ok(act.outcomes(t as int)[k as int]));
                let h: i32 = wrap_heading(tr.dit, nt);
                let ghost r0 = rev@;
                let w0: Way = (tr.dix, tr.diy, t);
                rev[h as usize].push(w0);
                proof {
                    assert(rev@[h as int]@ =~= r0[h as int]@.push(w0));
                    assert forall|j: int, w: Way| 0 <= j < nt implies (
                    #[trigger] rev@[j]@.contains(w) <==> way_before(
                        m,
                        j,
                        w,
                        a as int,
                        t as int,
                        k + 1,
                    )) by {
                        assert(r0[j]@.contains(w) <==> way_before(
                            m,
                            j,
                            w,
                            a as int,
                            t as int,
                            k as int,
                        ));
                        lemma_push_contains(r0[h as int]@, w0, w);
                        assert(way_at(m, j, w, a as int, k as int) && w.2 == t <==> j == h && w
                            == w0) by {
                            assert(m.actions[a as int].outcomes(t as int)[k as int] == tr);
                        }
                        lemma_way_step(m, j, w, a as int, t as int, k as int);
                    }
                }
                k += 1;
            }
            proof {
                assert forall|j: int, w: Way| 0 <= j < nt implies (
                #[trigger] rev@[j]@.contains(w) <==> way_before(m, j, w, a as int, t + 1, 0)) by {
                    lemma_way_row(m, j, w, a as int, t as int, k as int);
                }
            }
            t += 1;
        }
        proof {
            assert forall|j: int, w: Way| 0 <= j < nt implies (#[trigger] rev@[j]@.contains(w)
                <==> way_before(m, j, w, a + 1, 0, 0)) by {
                lemma_way_block(m, j, w, a as int, nt as int);
            }
        }
        a += 1;
    }
    proof {
        let rv = rev@.map_values(|v: Vec<Way>| v@);
        assert forall|j: int, w: Way| 0 <= j < nt implies (#[trigger] rv[j].contains(w) <==> is_way(
            m,
            j,
            w,
        )) by {
            assert(rv[j] == rev@[j]@);
            assert(rev@[j]@.contains(w) <==> way_before(m, j, w, a as int, 0, 0));
            if is_way(m, j, w) {
                let (b, k) = choose|b: int, k: int|
                    #![trigger m.actions[b].outcomes(w.2 as int)[k]]
                    0 <= b < m.actions.len() && 0 <= w.2 < m.grid.nt && 0 <= k
                        < m.actions[b].outcomes(w.2 as int).len() && {
                        let tr = m.actions[b].outcomes(w.2 as int)[k];
                        tr.dix == w.0 && tr.diy == w.1 && m.grid.heading(tr) == j
                    };
                assert(way_at(m, j, w, b, k));
                assert(way_before(m, j, w, a as int, 0, 0));
            }
            if way_before(m, j, w, a as int, 0, 0) {
                let (b, k) = choose|b: int, k: int| #[trigger]
                    way_at(m, j, w, b, k) && (b < a || b == a && (w.2 < 0 || w.2 == 0 && k < 0));
                let tr = m.actions[b].outcomes(w.2 as int)[k];
                assert(is_way(m, j, w));
            }
        }
    }
    rev
}

/// `w` is the way of outcome `k` of action `a` into the heading `it`.
spec fn way_at(m: Model, it: int, w: Way, a: int, k: int) -> bool {
    &&& 0 <= a < m.actions.len()
    &&& 0 <= w.2 < m.grid.nt
    &&& 0 <= k < m.actions[a].outcomes(w.2 as int).len()
    &&& ({
        let tr = m.actions[a].outcomes(w.2 as int)[k];
        tr.dix == w.0 && tr.diy == w.1 && m.grid.heading(tr) == it
    })
}

/// `w` is a way into the heading `it` that comes before outcome `k` of action `a`
/// from heading `t`.
spec fn way_before(m: Model, it: int, w: Way, a: int, t: int, k: int) -> bool {
    exists|b: int, j: int| #[trigger]
        way_at(m, it, w, b, j) && (b < a || b == a && (w.2 < t || w.2 == t && j < k))
}

proof fn lemma_push_contains(s: Seq<Way>, x: Way, w: Way)
    ensures
        s.push(x).contains(w) <==> s.contains(w) || w == x,
{
    if s.contains(w) {
        let k = choose|k: int| 0 <= k < s.len() && s[k] == w;
        assert(s.push(x)[k] == w);
    }
    assert(s.push(x)[s.len() as int] == x);
    if s.push(x).contains(w) && w != x {
        let k = choose|k: int| 0 <= k < s.push(x).len() && s.push(x)[k] == w;
        assert(s[k] == w);
    }
}

proof fn lemma_way_step(m: Model, it: int, w: Way, a: int, t: int, k: int)
    ensures
        way_before(m, it, w, a, t, k + 1) <==> way_before(m, it, w, a, t, k) || (way_at(
            m,
            it,
            w,
            a,
            k,
        ) && w.2 == t),
{
    if way_before(m, it, w, a, t, k) {
        let (b, j) = choose|b: int, j: int| #[trigger]
            way_at(m, it, w, b, j) && (b < a || b == a && (w.2 < t || w.2 == t && j < k));
        assert(way_at(m, it, w, b, j));
    }
    if way_before(m, it, w, a, t, k + 1) {
        let (b, j) = choose|b: int, j: int| #[trigger]
            way_at(m, it, w, b, j) && (b < a || b == a && (w.2 < t || w.2 == t && j < k + 1));
        assert(way_at(m, it, w, b, j));
    }
}

proof fn lemma_way_row(m: Model, it: int, w: Way, a: int, t: int, k: int)
    requires
        k == m.actions[a].outcomes(t).len(),
    ensures
        way_before(m, it, w, a, t, k) <==> way_before(m, it, w, a, t + 1, 0),
{
    if way_before(m, it, w, a, t, k) {
        let (b, j) = choose|b: int, j: int| #[trigger]
            way_at(m, it, w, b, j) && (b < a || b == a && (w.2 < t || w.2 == t && j < k));
        assert(way_at(m, it, w, b, j));
    }
    if way_before(m, it, w, a, t + 1, 0) {
        let (b, j) = choose|b: int, j: int| #[trigger]
            way_at(m, it, w, b, j) && (b < a || b == a && (w.2 < t + 1 || w.2 == t + 1 && j < 0));
        assert(way_at(m, it, w, b, j));
    }
}

proof fn lemma_way_block(m: Model, it: int, w: Way, a: int, t: int)
    requires
        t == m.grid.nt,
    ensures
        way_before(m, it, w, a, t, 0) <==> way_before(m, it, w, a + 1, 0, 0),
{
    if way_before(m, it, w, a, t, 0) {
        let (b, j) = choose|b: int, j: int| #[trigger]
            way_at(m, it, w, b, j) && (b < a || b == a && (w.2 < t || w.2 == t && j < 0));
        assert(way_at(m, it, w, b, j));
    }
    if way_before(m, it, w, a + 1, 0, 0) {
        let (b, j) = choose|b: int, j: int| #[trigger]
            way_at(m, it, w, b, j) && (b < a + 1 || b == a + 1 && (w.2 < 0 || w.2 == 0 && j < 0));
        assert(way_at(m, it, w, b, j));
    }
}

/// Positions as integers.
pub open spec fn ints(v: Seq<usize>) -> Seq<int> {
    v.map_values(|i: usize| i as int)
}

proof fn lemma_ints_push(v: Seq<usize>, x: usize)
    ensures
        ints(v.push(x)) =~= ints(v).push(x as int),
{
}

/// Listed items are states to be updated.
pub open spec fn items_ok(s: Seq<State>, items: Seq<int>) -> bool {
    forall|k: int| 0 <= k < items.len() ==> 0 <= #[trigger] items[k] < s.len() && updatable(
        s[items[k]],
    )
}

proof fn lemma_bucket_items(s: Seq<State>, items: Seq<int>, b: int, n: int)
    requires
        0 <= n <= items.len(),
        items_ok(s, items),
    ensures
        items_ok(s, bucket_items(s, items, b, n)),
        bucket_items(s, items, b, n).len() <= n,
        forall|k: int|
            0 <= k < n && bucket(s[#[trigger] items[k]].total_cost) == b ==> bucket_items(
                s,
                items,
                b,
                n,
            ).contains(items[k]),
    decreases n,
{
    if n > 0 {
        lemma_bucket_items(s, items, b, n - 1);
        let p = bucket_items(s, items, b, n - 1);
        let q = bucket_items(s, items, b, n);
        assert(0 <= items[n - 1] < s.len());
        assert forall|k: int| 0 <= k < q.len() implies 0 <= #[trigger] q[k] < s.len() && updatable(
            s[q[k]],
        ) by {
            if k < p.len() {
                assert(q[k] == p[k]);
            }
        }
        assert forall|k: int| 0 <= k < n && bucket(s[#[trigger] items[k]].total_cost) == b implies q.contains(
            items[k],
        ) by {
            if k < n - 1 {
                assert(p.contains(items[k]));
                let j = choose|j: int| 0 <= j < p.len() && p[j] == items[k];
                assert(q[j] == items[k]);
            } else {
                assert(q[p.len() as int] == items[k]);
            }
        }
    }
}

proof fn lemma_by_bucket(s: Seq<State>, items: Seq<int>, n: int)
    requires
        0 <= n,
        items_ok(s, items),
    ensures
        items_ok(s, by_bucket(s, items, n)),
        forall|k: int|
            0 <= k < items.len() && bucket(s[#[trigger] items[k]].total_cost) < n ==> by_bucket(
                s,
                items,
                n,
            ).contains(items[k]),
    decreases n,
{
    if n > 0 {
        lemma_by_bucket(s, items, n - 1);
        lemma_bucket_items(s, items, n - 1, items.len() as int);
        let p = by_bucket(s, items, n - 1);
        let e = bucket_items(s, items, n - 1, items.len() as int);
        let q = by_bucket(s, items, n);
        assert forall|k: int| 0 <= k < q.len() implies 0 <= #[trigger] q[k] < s.len() && updatable(
            s[q[k]],
        ) by {
            if k < p.len() {
                assert(q[k] == p[k]);
            } else {
                assert(q[k] == e[k - p.len()]);
            }
        }
        assert forall|k: int| 0 <= k < items.len() && bucket(s[#[trigger] items[k]].total_cost) < n implies q.contains(
            items[k],
        ) by {
            assert(bucket(s[items[k]].total_cost) >= 0);
            if bucket(s[items[k]].total_cost) < n - 1 {
                let j = choose|j: int| 0 <= j < p.len() && p[j] == items[k];
                assert(q[j] == items[k]);
            } else {
                let j = choose|j: int| 0 <= j < e.len() && e[j] == items[k];
                assert(q[p.len() + j] == items[k]);
            }
        }
    }
}

/// The order of a pass holds items to be updated, and all of them.
pub proof fn lemma_pass_order_ok(s: Seq<State>, items: Seq<int>)
    requires
        items_ok(s, items),
    ensures
        items_ok(s, pass_order(s, items)),
        forall|k: int| 0 <= k < items.len() ==> pass_order(s, items).contains(#[trigger] items[k]),
{
    lemma_by_bucket(s, items, MAX_BUCKETS + 1);
    assert forall|k: int| 0 <= k < items.len() implies pass_order(s, items).contains(
        #[trigger] items[k],
    ) by {
        assert(bucket(s[items[k]].total_cost) < MAX_BUCKETS + 1);
    }
}

/// The bucket of a value.
fn bucket_of(v: u64) -> (r: usize)
    ensures
        r == bucket(v),
        r <= MAX_BUCKETS,
{
    assert(v >> 16u32 == v / 65536u64) by (bit_vector);
    let b: u64 = v >> BUCKET_SHIFT;
    if v >= MAX_COST || b > MAX_BUCKETS {
        MAX_BUCKETS as usize
    } else {
        b as usize
    }
}

/// The items in the order of a pass.
fn order_items(states: &Vec<State>, items: &Vec<usize>) -> (r: Vec<usize>)
    requires
        items_ok(states@, ints(items@)),
    ensures
        ints(r@) =~= pass_order(states@, ints(items@)),
{
    let ghost s = states@;
    let ghost iv = ints(items@);
    let n: usize = MAX_BUCKETS as usize + 1;
    let mut buckets: Vec<Vec<usize>> = Vec::new();
    let mut b: usize = 0;
    while b < n
        invariant
            b <= n,
            buckets@.len() == b,
            forall|c: int| 0 <= c < b ==> (#[trigger] buckets@[c])@.len() == 0,
        decreases n - b,
    {
        buckets.push(Vec::new());
        b += 1;
    }
    proof {
        assert forall|c: int| 0 <= c < n implies ints((#[trigger] buckets@[c])@) =~= bucket_items(
            s,
            iv,
            c,
            0,
        ) by {}
    }
    let mut k: usize = 0;
    while k < items.len()
        invariant
            k <= items.len(),
            n == MAX_BUCKETS + 1,
            s == states@,
            iv == ints(items@),
            items_ok(s, iv),
            buckets@.len() == n,
            forall|c: int|
                0 <= c < n ==> ints((#[trigger] buckets@[c])@) =~= bucket_items(
                    s,
                    iv,
                    c,
                    k as int,
                ),
        decreases items.len() - k,
    {
        let i: usize = items[k];
        assert(iv[k as int] == i);
        assert(0 <= iv[k as int] < s.len());
        let c: usize = bucket_of(states[i].total_cost);
        let ghost b0 = buckets@;
        buckets[c].push(i);
        proof {
            assert(buckets@[c as int]@ =~= b0[c as int]@.push(i));
            lemma_ints_push(b0[c as int]@, i);
            assert forall|e: int| 0 <= e < n implies ints((#[trigger] buckets@[e])@)
                =~= bucket_items(s, iv, e, k + 1) by {
                assert(ints(b0[e]@) =~= bucket_items(s, iv, e, k as int));
            }
        }
        k += 1;
    }
    let mut out: Vec<usize> = Vec::new();
    let mut b: usize = 0;
    while b < n
        invariant
            b <= n,
            n == MAX_BUCKETS + 1,
            iv == ints(items@),
            buckets@.len() == n,
            forall|c: int|
                b <= c < n ==> ints((#[trigger] buckets@[c])@) =~= bucket_items(
                    s,
                    iv,
                    c,
                    iv.len() as int,
                ),
            ints(out@) =~= by_bucket(s, iv, b as int),
        decreases n - b,
    {
        let ghost o0 = out@;
        let ghost part = buckets@[b as int]@;
        let ghost bs = buckets@;
        let mut j: usize = 0;
        while j < buckets[b].len()
            invariant
                b < n,
                buckets@ == bs,
                bs.len() == n,
                part == bs[b as int]@,
                j <= part.len(),
                out@ =~= o0 + part.take(j as int),
            decreases part.len() - j,
        {
            let x: usize = buckets[b][j];
            out.push(x);
            j += 1;
        }
        assert(part.take(part.len() as int) =~= part);
        assert(ints(out@) =~= ints(o0) + ints(part));
        b += 1;
    }
    out
}

/// The work with the given parts.
spec fn work_of(s: Seq<State>, dirty: Seq<bool>, next: Seq<usize>) -> Work {
    Work { states: s, dirty: flag_set(dirty), next: ints(next) }
}

/// The origins of `st` wait now; those that did not already are listed.
fn mark_origins(
    vi: &ValueIterator,
    st: State,
    ways: &Vec<Way>,
    dirty: &mut Vec<bool>,
    next: &mut Vec<usize>,
)
    requires
        vi.wf(),
        old(dirty)@.len() == vi.states@.len(),
        on_grid(
            st.ix as int,
            st.iy as int,
            st.it as int,
            vi.grid().nx,
            vi.grid().ny,
            vi.grid().nt,
        ),
        forall|k: int| 0 <= k < ways@.len() ==> 0 <= (#[trigger] ways@[k]).2 < vi.grid().nt,
        items_ok(vi.states@, ints(old(next)@)),
    ensures
        final(dirty)@.len() == old(dirty)@.len(),
        work_of(vi.states@, final(dirty)@, final(next)@) =~= marked(
            vi.grid(),
            work_of(vi.states@, old(dirty)@, old(next)@),
            st,
            ways@,
            ways@.len() as int,
        ),
        items_ok(vi.states@, ints(final(next)@)),
{
    let ghost g = vi.grid();
    let ghost s = vi.states@;
    let ghost w0 = work_of(s, dirty@, next@);
    let mut k: usize = 0;
    while k < ways.len()
        invariant
            k <= ways.len(),
            vi.wf(),
            g == vi.grid(),
            s == vi.states@,
            dirty@.len() == s.len(),
            dirty@.len() == old(dirty)@.len(),
            on_grid(st.ix as int, st.iy as int, st.it as int, g.nx, g.ny, g.nt),
            forall|k: int| 0 <= k < ways@.len() ==> 0 <= (#[trigger] ways@[k]).2 < g.nt,
            items_ok(s, ints(next@)),
            work_of(s, dirty@, next@) =~= marked(g, w0, st, ways@, k as int),
        decreases ways.len() - k,
    {
        let (dix, diy, t) = ways[k];
        assert(ways@[k as int] == (dix, diy, t));
        let x: i64 = st.ix as i64 - dix as i64;
        let y: i64 = st.iy as i64 - diy as i64;
        let ghost before = work_of(s, dirty@, next@);
        if x >= 0 && x < vi.cell_num_x as i64 && y >= 0 && y < vi.cell_num_y as i64 {
            let i: usize = vi.to_index(x as i32, y as i32, t) as usize;
            let o: &State = &vi.states[i];
            if o.free && !o.final_state && !dirty[i] {
                let ghost d0 = dirty@;
                let ghost n0 = next@;
                dirty.set(i, true);
                next.push(i);
                proof {
                    lemma_ints_push(n0, i);
                    assert(flag_set(dirty@) =~= flag_set(d0).insert(i as int));
                }
            }
        }
        k += 1;
    }
}

/// Evaluates state `i`; if its value moves, its origins wait.
fn evaluate(
    vi: &mut ValueIterator,
    rev: &Vec<Vec<Way>>,
    i: usize,
    dirty: &mut Vec<bool>,
    next: &mut Vec<usize>,
)
    requires
        old(vi).wf(),
        i < old(vi).states@.len(),
        updatable(old(vi).states@[i as int]),
        is_rev(old(vi).model(), rev@.map_values(|v: Vec<Way>| v@)),
        old(dirty)@.len() == old(vi).states@.len(),
        items_ok(old(vi).states@, ints(old(next)@)),
    ensures
        final(vi).wf(),
        final(vi).has_states(*old(vi), final(vi).states@),
        same_frame(old(vi).states@, final(vi).states@),
        final(dirty)@.len() == old(dirty)@.len(),
        work_of(final(vi).states@, final(dirty)@, final(next)@) =~= evaluated(
            old(vi).model(),
            rev@.map_values(|v: Vec<Way>| v@),
            work_of(old(vi).states@, old(dirty)@, old(next)@),
            i as int,
        ),
        items_ok(final(vi).states@, ints(final(next)@)),
{
    let ghost m = vi.model();
    let ghost s0 = vi.states@;
    let ghost rv = rev@.map_values(|v: Vec<Way>| v@);
    let ghost d0 = dirty@;
    assert(m.grid.located_at(s0[i as int], i as int));
    dirty.set(i, false);
    assert(flag_set(dirty@) =~= flag_set(d0).remove(i as int));
    let st: State = vi.states[i];
    proof {
        law_best_is_least(m, s0, s0[i as int], m.actions.len() as int);
    }
    if let Some((c, a)) = min_action_cost(
        &vi.states,
        &vi.actions,
        i,
        vi.cell_num_x,
        vi.cell_num_y,
        vi.cell_num_t,
    ) {
        if c != st.total_cost {
            let mut s: State = st;
            s.total_cost = c;
            vi.states.set(i, s);
            proof {
                assert(vi.states@ =~= valued(m, s0, i as int));
                assert forall|j: int| 0 <= j < vi.states@.len() implies m.grid.located_at(
                    #[trigger] vi.states@[j],
                    j,
                ) by {
                    assert(m.grid.located_at(s0[j], j));
                }
                assert forall|j: int| 0 <= j < vi.states@.len() implies ((
                #[trigger] vi.states@[j]).optimal_action matches Some(x) ==> x
                    < m.actions.len()) by {
                    assert(s0[j].optimal_action matches Some(x) ==> x < m.actions.len());
                }
                assert forall|k: int| 0 <= k < ints(next@).len() implies 0
                    <= #[trigger] ints(next@)[k] < vi.states@.len() && updatable(
                    vi.states@[ints(next@)[k]],
                ) by {
                    assert(updatable(s0[ints(next@)[k]]));
                }
                let ways = rv[st.it as int];
                assert(ways == rev@[st.it as int]@);
                assert forall|k: int| 0 <= k < ways.len() implies 0 <= (#[trigger] ways[k]).2
                    < m.grid.nt by {
                    assert(ways.contains(ways[k]));
                    assert(is_way(m, st.it as int, ways[k]));
                }
            }
            mark_origins(vi, st, &rev[st.it as usize], dirty, next);
        }
    }
}

/// One pass over the given items; returns what the next pass evaluates.
fn run_pass(
    vi: &mut ValueIterator,
    rev: &Vec<Vec<Way>>,
    order: &Vec<usize>,
    dirty: &mut Vec<bool>,
) -> (next: Vec<usize>)
    requires
        old(vi).wf(),
        is_rev(old(vi).model(), rev@.map_values(|v: Vec<Way>| v@)),
        old(dirty)@.len() == old(vi).states@.len(),
        items_ok(old(vi).states@, ints(order@)),
        all_wait(old(vi).model(), old(vi).states@, flag_set(old(dirty)@)),
        forall|i: int| #[trigger] flag_set(old(dirty)@).contains(i) ==> ints(order@).contains(i),
        ints(order@).no_duplicates(),
        forall|k: int|
            0 <= k < order@.len() ==> flag_set(old(dirty)@).contains(#[trigger] ints(order@)[k]),
    ensures
        final(vi).wf(),
        final(vi).has_states(*old(vi), final(vi).states@),
        same_frame(old(vi).states@, final(vi).states@),
        final(dirty)@.len() == old(dirty)@.len(),
        work_of(final(vi).states@, final(dirty)@, next@) =~= pass(
            old(vi).model(),
            rev@.map_values(|v: Vec<Way>| v@),
            Work {
                states: old(vi).states@,
                dirty: flag_set(old(dirty)@),
                next: Seq::empty(),
            },
            ints(order@),
            order@.len() as int,
        ),
        items_ok(final(vi).states@, ints(next@)),
        all_wait(old(vi).model(), final(vi).states@, flag_set(final(dirty)@)),
        forall|i: int| #[trigger] flag_set(final(dirty)@).contains(i) ==> ints(next@).contains(i),
        distinct(ints(next@), flag_set(final(dirty)@)),
{
    let ghost m = vi.model();
    let ghost rv = rev@.map_values(|v: Vec<Way>| v@);
    let ghost ov = ints(order@);
    let ghost s0 = vi.states@;
    let ghost w0 = Work { states: s0, dirty: flag_set(dirty@), next: Seq::empty() };
    let mut next: Vec<usize> = Vec::new();
    assert(ints(next@) =~= Seq::<int>::empty());
    let mut k: usize = 0;
    while k < order.len()
        invariant
            k <= order.len(),
            m == old(vi).model(),
            vi.model() == m,
            vi.wf(),
            vi.has_states(*old(vi), vi.states@),
            s0 == old(vi).states@,
            same_frame(s0, vi.states@),
            rv == rev@.map_values(|v: Vec<Way>| v@),
            is_rev(m, rv),
            ov == ints(order@),
            items_ok(s0, ov),
            dirty@.len() == old(dirty)@.len(),
            dirty@.len() == vi.states@.len(),
            items_ok(vi.states@, ints(next@)),
            work_of(vi.states@, dirty@, next@) =~= pass(m, rv, w0, ov, k as int),
            all_wait(m, vi.states@, flag_set(dirty@)),
            forall|i: int| #[trigger]
                flag_set(dirty@).contains(i) ==> ints(next@).contains(i) || exists|j: int|
                    k <= j < ov.len() && #[trigger] ov[j] == i,
            ov.no_duplicates(),
            distinct(ints(next@), flag_set(dirty@)),
            forall|j: int|
                k <= j < ov.len() ==> flag_set(dirty@).contains(#[trigger] ov[j]) && !ints(
                    next@,
                ).contains(ov[j]),
        decreases order.len() - k,
    {
        let i: usize = order[k];
        assert(ov[k as int] == i);
        assert(0 <= ov[k as int] < s0.len() && updatable(s0[i as int]));
        assert(same_place(s0[i as int], vi.states@[i as int]));
        let ghost w1 = work_of(vi.states@, dirty@, next@);
        let ghost s1 = vi.states@;
        proof {
            lemma_evaluated(m, rv, w1, i as int);
        }
        evaluate(vi, rev, i, dirty, &mut next);
        proof {
            lemma_frame_trans(s0, s1, vi.states@);
            lemma_evaluated_lists(m, rv, w1, i as int);
            lemma_evaluated_distinct(m, rv, w1, i as int);
            let w2 = work_of(vi.states@, dirty@, next@);
            assert(w2 == evaluated(m, rv, w1, i as int));
            assert forall|q: int| #[trigger] flag_set(dirty@).contains(q) implies ints(
                next@,
            ).contains(q) || exists|j: int| k + 1 <= j < ov.len() && #[trigger] ov[j] == q by {
                assert(w2.dirty.contains(q));
                if !w2.next.contains(q) {
                    assert(w1.dirty.contains(q) && q != i);
                    assert(!w1.next.contains(q));
                    let j = choose|j: int| k <= j < ov.len() && #[trigger] ov[j] == q;
                    assert(j != k);
                    assert(ov[j] == q);
                }
            }
            assert forall|j: int| k + 1 <= j < ov.len() implies flag_set(dirty@).contains(
                #[trigger] ov[j],
            ) && !ints(next@).contains(ov[j]) by {
                assert(w1.dirty.contains(ov[j]) && !w1.next.contains(ov[j]));
                assert(ov[j] != ov[k as int]);
                assert(w2.dirty.contains(ov[j]) && !w2.next.contains(ov[j]));
            }
        }
        k += 1;
    }
    next
}

/// No item is listed twice, and all of them wait.
spec fn distinct(list: Seq<int>, dirty: Set<int>) -> bool {
    &&& list.no_duplicates()
    &&& forall|k: int| 0 <= k < list.len() ==> dirty.contains(#[trigger] list[k])
}

proof fn lemma_marked_distinct(g: Grid, w: Work, st: State, ways: Seq<Way>, n: int)
    requires
        distinct(w.next, w.dirty),
    ensures
        ({
            let r = marked(g, w, st, ways, n);
            &&& distinct(r.next, r.dirty)
            &&& w.dirty.subset_of(r.dirty)
            &&& forall|q: int| #[trigger]
                r.next.contains(q) && w.dirty.contains(q) ==> w.next.contains(q)
        }),
    decreases n,
{
    if n > 0 {
        lemma_marked_distinct(g, w, st, ways, n - 1);
        let p = marked(g, w, st, ways, n - 1);
        let r = marked(g, w, st, ways, n);
        assert forall|i: int, j: int| 0 <= i < r.next.len() && 0 <= j < r.next.len() && i
            != j implies r.next[i] != r.next[j] by {
            if i < p.next.len() {
                assert(p.dirty.contains(p.next[i]));
            }
            if j < p.next.len() {
                assert(p.dirty.contains(p.next[j]));
            }
        }
        assert forall|k: int| 0 <= k < r.next.len() implies r.dirty.contains(#[trigger] r.next[k]) by {
            if k < p.next.len() {
                assert(p.dirty.contains(p.next[k]));
            }
        }
        assert forall|q: int| #[trigger]
            r.next.contains(q) && w.dirty.contains(q) implies w.next.contains(q) by {
            let k = choose|k: int| 0 <= k < r.next.len() && r.next[k] == q;
            if k < p.next.len() {
                assert(p.next[k] == q);
                assert(p.next.contains(q));
            }
        }
    }
}

proof fn lemma_evaluated_distinct(m: Model, rev: Seq<Seq<Way>>, w: Work, p: int)
    requires
        distinct(w.next, w.dirty),
        !w.next.contains(p),
    ensures
        ({
            let e = evaluated(m, rev, w, p);
            &&& distinct(e.next, e.dirty)
            &&& forall|q: int| #[trigger] w.dirty.contains(q) && q != p ==> e.dirty.contains(q)
            &&& forall|q: int| #[trigger]
                w.dirty.contains(q) && q != p && !w.next.contains(q) ==> !e.next.contains(q)
        }),
{
    let d = w.dirty.remove(p);
    let w1 = Work { states: valued(m, w.states, p), dirty: d, next: w.next };
    let ways = rev[w.states[p].it as int];
    assert forall|k: int| 0 <= k < w.next.len() implies d.contains(#[trigger] w.next[k]) by {
        assert(w.next.contains(w.next[k]));
    }
    lemma_marked_distinct(m.grid, w1, w.states[p], ways, ways.len() as int);
    let e = evaluated(m, rev, w, p);
    assert forall|q: int| #[trigger]
        w.dirty.contains(q) && q != p && !w.next.contains(q) implies !e.next.contains(q) by {
        assert(d.contains(q));
        assert(w1.dirty.contains(q));
    }
}

proof fn lemma_bucket_items_from(s: Seq<State>, items: Seq<int>, b: int, n: int)
    requires
        0 <= n <= items.len(),
        items.no_duplicates(),
    ensures
        bucket_items(s, items, b, n).no_duplicates(),
        forall|k: int|
            0 <= k < bucket_items(s, items, b, n).len() ==> {
                let x = #[trigger] bucket_items(s, items, b, n)[k];
                bucket(s[x].total_cost) == b && exists|j: int| 0 <= j < n && items[j] == x
            },
    decreases n,
{
    if n > 0 {
        lemma_bucket_items_from(s, items, b, n - 1);
        let p = bucket_items(s, items, b, n - 1);
        let q = bucket_items(s, items, b, n);
        assert forall|k: int| 0 <= k < q.len() implies {
            let x = #[trigger] q[k];
            bucket(s[x].total_cost) == b && exists|j: int| 0 <= j < n && items[j] == x
        } by {
            if k < p.len() {
                assert(q[k] == p[k]);
                let j = choose|j: int| 0 <= j < n - 1 && items[j] == p[k];
                assert(items[j] == q[k]);
            } else {
                assert(items[n - 1] == q[k]);
            }
        }
        assert forall|i: int, j: int| 0 <= i < q.len() && 0 <= j < q.len() && i != j implies q[i]
            != q[j] by {
            if i < p.len() {
                let a = choose|a: int| 0 <= a < n - 1 && items[a] == p[i];
                assert(items[a] != items[n - 1]);
            }
            if j < p.len() {
                let a = choose|a: int| 0 <= a < n - 1 && items[a] == p[j];
                assert(items[a] != items[n - 1]);
            }
        }
    }
}

proof fn lemma_by_bucket_from(s: Seq<State>, items: Seq<int>, n: int)
    requires
        items.no_duplicates(),
    ensures
        by_bucket(s, items, n).no_duplicates(),
        forall|k: int|
            0 <= k < by_bucket(s, items, n).len() ==> {
                let x = #[trigger] by_bucket(s, items, n)[k];
                bucket(s[x].total_cost) < n && items.contains(x)
            },
    decreases n,
{
    if n > 0 {
        lemma_by_bucket_from(s, items, n - 1);
        lemma_bucket_items_from(s, items, n - 1, items.len() as int);
        let p = by_bucket(s, items, n - 1);
        let e = bucket_items(s, items, n - 1, items.len() as int);
        let q = by_bucket(s, items, n);
        assert forall|k: int| 0 <= k < q.len() implies {
            let x = #[trigger] q[k];
            bucket(s[x].total_cost) < n && items.contains(x)
        } by {
            if k < p.len() {
                assert(q[k] == p[k]);
            } else {
                assert(q[k] == e[k - p.len()]);
            }
        }
        assert forall|i: int, j: int| 0 <= i < q.len() && 0 <= j < q.len() && i != j implies q[i]
            != q[j] by {
            if i < p.len() {
                assert(q[i] == p[i]);
            } else {
                assert(q[i] == e[i - p.len()]);
            }
            if j < p.len() {
                assert(q[j] == p[j]);
            } else {
                assert(q[j] == e[j - p.len()]);
            }
        }
    }
}

/// A list of distinct states is no longer than the list of states.
proof fn lemma_distinct_len(list: Seq<int>, n: int)
    requires
        list.no_duplicates(),
        0 <= n,
        forall|k: int| 0 <= k < list.len() ==> 0 <= #[trigger] list[k] < n,
    ensures
        list.len() <= n,
{
    list.unique_seq_to_set();
    vstd::set_lib::lemma_int_range(0, n);
    assert forall|v: int| list.to_set().contains(v) implies vstd::set_lib::set_int_range(
        0,
        n,
    ).contains(v) by {
        let k = choose|k: int| 0 <= k < list.len() && list[k] == v;
        assert(0 <= list[k] < n);
    }
    vstd::set_lib::lemma_len_subset(list.to_set(), vstd::set_lib::set_int_range(0, n));
}

proof fn lemma_open_states(s: Seq<State>, n: int)
    requires
        0 <= n <= s.len(),
    ensures
        items_ok(s, open_states(s, n)),
        open_states(s, n).no_duplicates(),
        forall|k: int| 0 <= k < open_states(s, n).len() ==> #[trigger] open_states(s, n)[k] < n,
        forall|i: int|
            0 <= i < n && updatable(#[trigger] s[i]) ==> open_states(s, n).contains(i),
    decreases n,
{
    if n > 0 {
        lemma_open_states(s, n - 1);
        let p = open_states(s, n - 1);
        let q = open_states(s, n);
        assert forall|i: int| 0 <= i < n && updatable(#[trigger] s[i]) implies q.contains(i) by {
            if i < n - 1 {
                let k = choose|k: int| 0 <= k < p.len() && p[k] == i;
                assert(q[k] == i);
            } else {
                assert(q[p.len() as int] == i);
            }
        }
    }
}

/// Policies do not matter for Bellman values.
proof fn lemma_policy_free(m: Model, s: Seq<State>, t: Seq<State>, i: int)
    requires
        s.len() == t.len(),
        0 <= i < s.len(),
        m.wf(),
        m.grid.located(s),
        forall|j: int|
            0 <= j < s.len() ==> #[trigger] t[j] == (State {
                optimal_action: t[j].optimal_action,
                ..s[j]
            }),
    ensures
        m.bellman(t, i) == m.bellman(s, i),
{
    let g = m.grid;
    let st = s[i];
    assert(g.located_at(s[i], i));
    assert(t[i] == (State { optimal_action: t[i].optimal_action, ..s[i] }));
    assert(same_ahead(m, s, t, st)) by {
        assert forall|a: int, k: int|
            #![trigger m.actions[a].outcomes(st.it as int)[k]]
            0 <= a < m.actions.len() && 0 <= k < m.actions[a].outcomes(st.it as int).len()
                && g.stays(st, m.actions[a].outcomes(st.it as int)[k]) implies same_cost(
            s[g.succ(st, m.actions[a].outcomes(st.it as int)[k])],
            t[g.succ(st, m.actions[a].outcomes(st.it as int)[k])],
        ) by {
            let tr = m.actions[a].outcomes(st.it as int)[k];
            assert(g.action_ok(m.actions[a]));
            assert(g.outcome_ok(m.actions[a].outcomes(st.it as int)[k]));
            lemma_succ_bound(g, st, tr);
            let j = g.succ(st, tr);
            assert(t[j] == (State { optimal_action: t[j].optimal_action, ..s[j] }));
        }
    }
    lemma_best_local(m, s, t, st, m.actions.len() as int);
    lemma_best_place(m, t, st, t[i], m.actions.len() as int);
}

/// Gives every state its best action.
fn final_policy(vi: &mut ValueIterator)
    requires
        old(vi).wf(),
    ensures
        final(vi).wf(),
        final(vi).has_states(*old(vi), with_policy(old(vi).model(), old(vi).states@)),
{
    let ghost m = vi.model();
    let ghost s0 = vi.states@;
    let n: usize = vi.states.len();
    let mut i: usize = 0;
    while i < n
        invariant
            i <= n,
            n == s0.len(),
            n == vi.states@.len(),
            m == old(vi).model(),
            vi.model() == m,
            vi.wf(),
            vi.has_states(*old(vi), vi.states@),
            s0 == old(vi).states@,
            m.grid.located(s0),
            forall|j: int|
                0 <= j < i ==> #[trigger] vi.states@[j] == with_policy(m, s0)[j],
            forall|j: int| i <= j < n ==> #[trigger] vi.states@[j] == s0[j],
        decreases n - i,
    {
        let ghost s1 = vi.states@;
        proof {
            assert forall|j: int| 0 <= j < s0.len() implies #[trigger] s1[j] == (State {
                optimal_action: s1[j].optimal_action,
                ..s0[j]
            }) by {
                if j < i {
                    assert(s1[j] == with_policy(m, s0)[j]);
                }
            }
            lemma_policy_free(m, s0, s1, i as int);
            law_best_is_least(m, s1, s1[i as int], m.actions.len() as int);
        }
        if let Some((c, a)) = min_action_cost(
            &vi.states,
            &vi.actions,
            i,
            vi.cell_num_x,
            vi.cell_num_y,
            vi.cell_num_t,
        ) {
            let mut s: State = vi.states[i];
            s.optimal_action = a;
            vi.states.set(i, s);
            proof {
                assert forall|j: int| 0 <= j < vi.states@.len() implies m.grid.located_at(
                    #[trigger] vi.states@[j],
                    j,
                ) by {
                    assert(m.grid.located_at(s1[j], j));
                }
                assert forall|j: int| 0 <= j < vi.states@.len() implies ((
                #[trigger] vi.states@[j]).optimal_action matches Some(x) ==> x
                    < m.actions.len()) by {
                    assert(s1[j].optimal_action matches Some(x) ==> x < m.actions.len());
                }
            }
        }
        i += 1;
    }
    assert(vi.states@ =~= with_policy(m, s0));
}

/// The states to be updated.
fn all_open(states: &Vec<State>) -> (r: Vec<usize>)
    ensures
        ints(r@) =~= open_states(states@, states@.len() as int),
{
    let mut out: Vec<usize> = Vec::new();
    let mut i: usize = 0;
    while i < states.len()
        invariant
            i <= states.len(),
            ints(out@) =~= open_states(states@, i as int),
        decreases states.len() - i,
    {
        if states[i].free && !states[i].final_state {
            let ghost o0 = out@;
            out.push(i);
            proof {
                lemma_ints_push(o0, i);
            }
        }
        i += 1;
    }
    out
}

/// What an ordered sweep of the field `s` comes to, for the given lists of ways.
///
/// Every pass was needed; the sweep ends when nothing waits any more or at
/// `max_passes`. At the end every state gets its best action.
pub open spec fn swept(
    m: Model,
    rev: Seq<Seq<Way>>,
    s: Seq<State>,
    max_passes: int,
    out: OrderedOutcome,
    t: Seq<State>,
) -> bool {
    let last = sweep(m, rev, s, out.passes as int);
    &&& t == with_policy(m, last.work.states)
    &&& out.updates == last.updates
    &&& out.passes <= max_passes
    &&& out.converged <==> last.work.next.len() == 0
    &&& !out.converged ==> out.passes == max_passes
    &&& forall|j: int|
        0 <= j < out.passes ==> (#[trigger] sweep(m, rev, s, j)).work.next.len() > 0
}

/// Sweeps the field in the order of its values until nothing moves.
///
/// A converged field is a fixed point: every state has its Bellman value and the
/// action that attains it.
pub fn ordered_sweep(vi: &mut ValueIterator, max_passes: u32) -> (out: OrderedOutcome)
    requires
        old(vi).wf(),
    ensures
        final(vi).wf(),
        final(vi).has_states(*old(vi), final(vi).states@),
        same_frame(old(vi).states@, final(vi).states@),
        exists|rev: Seq<Seq<Way>>|
            is_rev(old(vi).model(), rev) && #[trigger] swept(
                old(vi).model(),
                rev,
                old(vi).states@,
                max_passes as int,
                out,
                final(vi).states@,
            ),
        out.converged ==> forall|i: int|
            0 <= i < final(vi).states@.len() && updatable(#[trigger] final(vi).states@[i])
                ==> final(vi).states@[i] == old(vi).model().updated(final(vi).states@, i),
{
    let ghost m = vi.model();
    let ghost s0 = vi.states@;
    let n: usize = vi.states.len();
    let rev: Vec<Vec<Way>> = build_rev_theta(vi);
    let ghost rv = rev@.map_values(|v: Vec<Way>| v@);
    let mut items: Vec<usize> = all_open(&vi.states);
    let mut dirty: Vec<bool> = vec![false; n];
    proof {
        lemma_open_states(s0, n as int);
    }
    let ghost all = open_states(s0, n as int);
    let mut k: usize = 0;
    while k < items.len()
        invariant
            k <= items.len(),
            n == s0.len(),
            dirty@.len() == n,
            ints(items@) =~= all,
            items_ok(s0, all),
            forall|i: int|
                0 <= i < n ==> (#[trigger] dirty@[i] <==> exists|j: int|
                    0 <= j < k && all[j] == i),
        decreases items.len() - k,
    {
        let i: usize = items[k];
        assert(ints(items@)[k as int] == i);
        assert(0 <= all[k as int] < s0.len());
        let ghost d0 = dirty@;
        dirty.set(i, true);
        proof {
            assert forall|q: int| 0 <= q < n implies (#[trigger] dirty@[q] <==> exists|j: int|
                0 <= j < k + 1 && all[j] == q) by {
                assert(d0[q] <==> exists|j: int| 0 <= j < k && all[j] == q);
                if q == i {
                    assert(all[k as int] == q);
                }
            }
        }
        k += 1;
    }
    proof {
        assert(flag_set(dirty@) =~= all.to_set()) by {
            assert forall|q: int| flag_set(dirty@).contains(q) <==> all.to_set().contains(q) by {
                if all.to_set().contains(q) {
                    let j = choose|j: int| 0 <= j < all.len() && all[j] == q;
                    assert(0 <= all[j] < n);
                    assert(dirty@[q]);
                }
            }
        }
        assert(all_wait(m, s0, flag_set(dirty@))) by {
            assert forall|i: int| 0 <= i < s0.len() implies #[trigger] consistent(m, s0, i)
                || flag_set(dirty@).contains(i) by {
                if updatable(s0[i]) {
                    assert(all.contains(i));
                }
            }
        }
        assert(distinct(ints(items@), flag_set(dirty@))) by {
            assert forall|k: int| 0 <= k < ints(items@).len() implies flag_set(dirty@).contains(
                #[trigger] ints(items@)[k],
            ) by {
                assert(all.contains(all[k]));
            }
        }
    }
    let mut passes: u32 = 0;
    let mut updates: u64 = 0;
    while passes < max_passes && items.len() > 0
        invariant
            m == old(vi).model(),
            vi.model() == m,
            vi.wf(),
            vi.has_states(*old(vi), vi.states@),
            s0 == old(vi).states@,
            n == s0.len(),
            n == vi.states@.len(),
            same_frame(s0, vi.states@),
            rv == rev@.map_values(|v: Vec<Way>| v@),
            is_rev(m, rv),
            dirty@.len() == n,
            passes <= max_passes,
            items_ok(vi.states@, ints(items@)),
            distinct(ints(items@), flag_set(dirty@)),
            forall|i: int| #[trigger] flag_set(dirty@).contains(i) ==> ints(items@).contains(i),
            all_wait(m, vi.states@, flag_set(dirty@)),
            work_of(vi.states@, dirty@, items@) =~= sweep(m, rv, s0, passes as int).work,
            updates == sweep(m, rv, s0, passes as int).updates,
            updates <= passes * n,
            n <= i32::MAX,
            forall|j: int|
                0 <= j < passes ==> (#[trigger] sweep(m, rv, s0, j)).work.next.len() > 0,
        decreases max_passes - passes,
    {
        let ghost s1 = vi.states@;
        let ghost iv = ints(items@);
        let ghost w1 = sweep(m, rv, s0, passes as int);
        let order: Vec<usize> = order_items(&vi.states, &items);
        proof {
            lemma_pass_order_ok(s1, iv);
            lemma_by_bucket_from(s1, iv, MAX_BUCKETS + 1);
            let ov = pass_order(s1, iv);
            assert(ints(order@) == ov);
            lemma_distinct_len(ov, n as int);
            assert forall|i: int| #[trigger] flag_set(dirty@).contains(i) implies ov.contains(
                i,
            ) by {
                assert(iv.contains(i));
                let j = choose|j: int| 0 <= j < iv.len() && iv[j] == i;
                assert(ov.contains(iv[j]));
            }
            assert forall|k: int| 0 <= k < order@.len() implies flag_set(dirty@).contains(
                #[trigger] ints(order@)[k],
            ) by {
                assert(iv.contains(ov[k]));
                let j = choose|j: int| 0 <= j < iv.len() && iv[j] == ov[k];
                assert(flag_set(dirty@).contains(iv[j]));
            }
            assert(passes * n + n == (passes + 1) * n) by (nonlinear_arith);
            assert((passes + 1) * n <= 0x1_0000_0000 * 0x7fff_ffff) by (nonlinear_arith)
                requires
                    passes + 1 <= 0x1_0000_0000,
                    0 <= n <= 0x7fff_ffff,
            ;
        }
        let next: Vec<usize> = run_pass(vi, &rev, &order, &mut dirty);
        updates += order.len() as u64;
        proof {
            lemma_frame_trans(s0, s1, vi.states@);
            assert(w1.work.next == iv);
            assert(sweep(m, rv, s0, passes + 1).work == work_of(vi.states@, dirty@, next@));
        }
        items = next;
        passes += 1;
    }
    let converged: bool = items.len() == 0;
    let ghost s1 = vi.states@;
    final_policy(vi);
    let out = OrderedOutcome { passes, updates, converged };
    proof {
        let t = vi.states@;
        assert(t =~= with_policy(m, s1));
        assert(swept(m, rv, s0, max_passes as int, out, t));
        assert forall|i: int| 0 <= i < s1.len() implies same_place(s1[i], #[trigger] t[i]) by {}
        assert(same_frame(s1, t));
        lemma_frame_trans(s0, s1, t);
        if converged {
            assert forall|i: int| 0 <= i < t.len() && updatable(#[trigger] t[i]) implies t[i]
                == m.updated(t, i) by {
                lemma_policy_free(m, s1, t, i);
                if flag_set(dirty@).contains(i) {
                    assert(ints(items@).contains(i));
                }
                assert(consistent(m, s1, i));
                law_best_is_least(m, t, t[i], m.actions.len() as int);
            }
        }
    }
    out
}

/// What waits after an evaluation and did not before is listed.
proof fn lemma_evaluated_lists(m: Model, rev: Seq<Seq<Way>>, w: Work, p: int)
    ensures
        ({
            let e = evaluated(m, rev, w, p);
            &&& forall|q: int| #[trigger]
                e.dirty.contains(q) && !e.next.contains(q) ==> w.dirty.contains(q) && q != p
            &&& forall|q: int| #[trigger] w.next.contains(q) ==> e.next.contains(q)
        }),
{
    let d = w.dirty.remove(p);
    let e = evaluated(m, rev, w, p);
    let w1 = Work { states: valued(m, w.states, p), dirty: d, next: w.next };
    let ways = rev[w.states[p].it as int];
    lemma_marked_lists(m.grid, w1, w.states[p], ways, ways.len() as int);
    assert forall|q: int| #[trigger] e.dirty.contains(q) && !e.next.contains(q) implies w.dirty.contains(
        q,
    ) && q != p by {
        if m.bellman(w.states, p).0 != w.states[p].total_cost {
            assert(w1.dirty.contains(q));
        }
        assert(d.contains(q));
    }
    assert forall|q: int| #[trigger] w.next.contains(q) implies e.next.contains(q) by {
        assert(w1.next.contains(q));
    }
}

proof fn lemma_marked_lists(g: Grid, w: Work, st: State, ways: Seq<Way>, n: int)
    ensures
        ({
            let r = marked(g, w, st, ways, n);
            &&& forall|q: int| #[trigger]
                r.dirty.contains(q) && !r.next.contains(q) ==> w.dirty.contains(q)
            &&& forall|q: int| #[trigger] w.next.contains(q) ==> r.next.contains(q)
        }),
    decreases n,
{
    if n > 0 {
        lemma_marked_lists(g, w, st, ways, n - 1);
        let p = marked(g, w, st, ways, n - 1);
        let r = marked(g, w, st, ways, n);
        assert forall|q: int| #[trigger] p.next.contains(q) implies r.next.contains(q) by {
            let k = choose|k: int| 0 <= k < p.next.len() && p.next[k] == q;
            assert(r.next[k] == q);
        }
        assert forall|q: int| #[trigger] r.dirty.contains(q) && !r.next.contains(q) implies w.dirty.contains(
            q,
        ) by {
            if !p.dirty.contains(q) {
                assert(r.next[p.next.len() as int] == q);
            } else {
                assert(!p.next.contains(q));
            }
        }
    }
}

/// What is marked is to be updated.
proof fn lemma_marked_items(m: Model, w: Work, st: State, ways: Seq<Way>, n: int)
    requires
        m.grid.wf(),
        w.states.len() == m.grid.len(),
        items_ok(w.states, w.next),
        n <= ways.len(),
        forall|k: int| 0 <= k < ways.len() ==> 0 <= (#[trigger] ways[k]).2 < m.grid.nt,
    ensures
        marked(m.grid, w, st, ways, n).states == w.states,
        items_ok(w.states, marked(m.grid, w, st, ways, n).next),
    decreases n,
{
    if n > 0 {
        lemma_marked_items(m, w, st, ways, n - 1);
        let p = marked(m.grid, w, st, ways, n - 1);
        let r = marked(m.grid, w, st, ways, n);
        let x = ways[n - 1];
        assert(0 <= ways[n - 1].2 < m.grid.nt);
        if let Some(i) = origin_of(m.grid, p.states, st, x) {
            lemma_index_bound(
                st.ix - x.0,
                st.iy - x.1,
                x.2 as int,
                m.grid.nx,
                m.grid.ny,
                m.grid.nt,
            );
        }
        assert forall|k: int| 0 <= k < r.next.len() implies 0 <= #[trigger] r.next[k]
            < w.states.len() && updatable(w.states[r.next[k]]) by {
            if k < p.next.len() {
                assert(r.next[k] == p.next[k]);
            }
        }
    }
}

/// A pass moves no state, leaves goals and walls alone, and lists what is to be updated.
pub proof fn lemma_pass_items(m: Model, rev: Seq<Seq<Way>>, w: Work, order: Seq<int>, n: int)
    requires
        m.wf(),
        m.grid.located(w.states),
        is_rev(m, rev),
        items_ok(w.states, w.next),
        items_ok(w.states, order),
        0 <= n <= order.len(),
    ensures
        ({
            let e = pass(m, rev, w, order, n);
            &&& m.grid.located(e.states)
            &&& items_ok(e.states, e.next)
            &&& e.states.len() == w.states.len()
            &&& forall|i: int|
                0 <= i < w.states.len() ==> updatable(#[trigger] e.states[i]) == updatable(
                    w.states[i],
                )
        }),
    decreases n,
{
    if n > 0 {
        lemma_pass_items(m, rev, w, order, n - 1);
        let p = pass(m, rev, w, order, n - 1);
        let e = pass(m, rev, w, order, n);
        let i = order[n - 1];
        assert(0 <= order[n - 1] < w.states.len());
        let st = p.states[i];
        assert(m.grid.located_at(p.states[i], i));
        if m.bellman(p.states, i).0 != st.total_cost {
            let t = valued(m, p.states, i);
            let ways = rev[st.it as int];
            assert forall|k: int| 0 <= k < ways.len() implies 0 <= (#[trigger] ways[k]).2
                < m.grid.nt by {
                assert(rev[st.it as int].contains(ways[k]));
            }
            assert(items_ok(t, p.next));
            lemma_marked_items(
                m,
                Work { states: t, dirty: p.dirty.remove(i), next: p.next },
                st,
                ways,
                ways.len() as int,
            );
            assert forall|j: int| 0 <= j < t.len() implies m.grid.located_at(#[trigger] t[j], j) by {
                assert(m.grid.located_at(p.states[j], j));
            }
        }
        assert forall|j: int| 0 <= j < w.states.len() implies updatable(#[trigger] e.states[j])
            == updatable(w.states[j]) by {
            assert(updatable(p.states[j]) == updatable(w.states[j]));
        }
    }
}

/// A sweep evaluates states that are to be updated, and no others.
pub proof fn lemma_sweep_items(m: Model, rev: Seq<Seq<Way>>, s: Seq<State>, n: int)
    requires
        m.wf(),
        m.grid.located(s),
        is_rev(m, rev),
    ensures
        ({
            let w = sweep(m, rev, s, n).work;
            &&& m.grid.located(w.states)
            &&& items_ok(w.states, w.next)
            &&& w.states.len() == s.len()
            &&& forall|i: int|
                0 <= i < s.len() ==> updatable(#[trigger] w.states[i]) == updatable(s[i])
        }),
    decreases n,
{
    if n > 0 {
        lemma_sweep_items(m, rev, s, n - 1);
        let p = sweep(m, rev, s, n - 1).work;
        let order = pass_order(p.states, p.next);
        lemma_pass_order_ok(p.states, p.next);
        let w = Work { next: Seq::empty(), ..p };
        lemma_pass_items(m, rev, w, order, order.len() as int);
        let e = pass(m, rev, w, order, order.len() as int);
        assert forall|i: int| 0 <= i < s.len() implies updatable(#[trigger] e.states[i])
            == updatable(s[i]) by {
            assert(updatable(e.states[i]) == updatable(w.states[i]));
            assert(updatable(p.states[i]) == updatable(s[i]));
        }
    } else {
        lemma_open_states(s, s.len() as int);
    }
}

/// Cheaper states are not in later buckets, and a bucket holds values of a range of 65536.
pub proof fn law_buckets_are_ascending(u: u64, v: u64)
    ensures
        u <= v ==> bucket(u) <= bucket(v),
        0 <= bucket(u) <= MAX_BUCKETS,
        bucket(u) < MAX_BUCKETS ==> bucket(u) * 65_536 <= u < (bucket(u) + 1) * 65_536,
        u >= MAX_COST ==> bucket(u) == MAX_BUCKETS,
{
}

/// A pass goes over its states by ascending buckets, and over every one of them once.
pub proof fn law_pass_goes_by_value(s: Seq<State>, items: Seq<int>, a: int, b: int)
    requires
        items_ok(s, items),
        items.no_duplicates(),
        0 <= a < b < pass_order(s, items).len(),
    ensures
        bucket(s[pass_order(s, items)[a]].total_cost) <= bucket(
            s[pass_order(s, items)[b]].total_cost,
        ),
        pass_order(s, items)[a] != pass_order(s, items)[b],
        forall|i: int| #[trigger] pass_order(s, items).contains(i) <==> items.contains(i),
{
    let n = MAX_BUCKETS + 1;
    lemma_ascending(s, items, n, a, b);
    lemma_by_bucket_from(s, items, n);
    lemma_by_bucket(s, items, n);
    let order = pass_order(s, items);
    assert forall|i: int| #[trigger] order.contains(i) implies items.contains(i) by {
        let k = choose|k: int| 0 <= k < order.len() && order[k] == i;
        assert(items.contains(order[k]));
    }
    assert forall|i: int| #[trigger] items.contains(i) implies order.contains(i) by {
        let k = choose|k: int| 0 <= k < items.len() && items[k] == i;
        assert(order.contains(items[k]));
    }
}

proof fn lemma_ascending(s: Seq<State>, items: Seq<int>, n: int, a: int, b: int)
    requires
        items.no_duplicates(),
        0 <= a < b < by_bucket(s, items, n).len(),
    ensures
        bucket(s[by_bucket(s, items, n)[a]].total_cost) <= bucket(
            s[by_bucket(s, items, n)[b]].total_cost,
        ),
    decreases n,
{
    let p = by_bucket(s, items, n - 1);
    let e = bucket_items(s, items, n - 1, items.len() as int);
    let q = by_bucket(s, items, n);
    lemma_by_bucket_from(s, items, n - 1);
    lemma_bucket_items_from(s, items, n - 1, items.len() as int);
    if b < p.len() {
        lemma_ascending(s, items, n - 1, a, b);
        assert(q[a] == p[a] && q[b] == p[b]);
    } else {
        assert(q[b] == e[b - p.len()]);
        if a < p.len() {
            assert(q[a] == p[a]);
            assert(bucket(s[p[a]].total_cost) < n - 1);
        } else {
            assert(q[a] == e[a - p.len()]);
        }
    }
}

} // verus!
