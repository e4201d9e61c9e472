//! Policies for the states that were pinned while tiles were restored.
use vstd::prelude::*;

use crate::action::{Action, StateTransition};
use crate::grid::{on_grid, to_index_raw};
use crate::model::{lemma_succ_bound, lemma_weighted_nonneg, step_cost, Grid, Model};
use crate::params::{PROB_BASE, PROB_BASE_BIT, REACH_THRESH};
use crate::solvers::schur::artifact::{Portal, SchurArtifact};
use crate::solvers::schur::domain::{fits, lemma_map_patch, map_patch, portal_on};
use crate::solvers::schur::patch::PATCH_LEN;
use crate::state::{with_value, State};
use crate::value_iterator::{wrap_heading, ValueIterator};

verus! {

/// All outcomes end in free states that have a real value.
pub open spec fn all_reached(
    g: Grid,
    s: Seq<State>,
    st: State,
    trs: Seq<StateTransition>,
) -> bool {
    forall|k: int|
        0 <= k < trs.len() ==> g.lands(s, st, #[trigger] trs[k]) && s[g.succ(
            st,
            trs[k],
        )].total_cost < REACH_THRESH
}

/// Exact expected cost of the outcomes `trs`.
pub open spec fn exact_cost(g: Grid, s: Seq<State>, st: State, trs: Seq<StateTransition>) -> int {
    g.weighted(s, st, trs, trs.len() as int) / (PROB_BASE as int)
}

/// The action with outcomes `trs` leads from `st` to real values only, at a real
/// cost.
pub open spec fn is_real(g: Grid, s: Seq<State>, st: State, trs: Seq<StateTransition>) -> bool {
    all_reached(g, s, st, trs) && exact_cost(g, s, st, trs) < REACH_THRESH
}

/// The least cost of those of the first `k` actions that are real, and the first
/// such action.
pub open spec fn real_best(m: Model, s: Seq<State>, st: State, k: int) -> Option<(int, usize)>
    decreases k,
{
    if k <= 0 {
        None
    } else {
        let p = real_best(m, s, st, k - 1);
        let trs = m.actions[k - 1].outcomes(st.it as int);
        let c = exact_cost(m.grid, s, st, trs);
        if is_real(m.grid, s, st, trs) && (p matches Some((b, _)) ==> c < b) {
            Some((c, (k - 1) as usize))
        } else {
            p
        }
    }
}

/// State `i` lacks a policy and has a real action.
pub open spec fn is_fixable(m: Model, s: Seq<State>, i: int) -> bool {
    &&& s[i].free
    &&& !s[i].final_state
    &&& s[i].optimal_action is None
    &&& real_best(m, s, s[i], m.actions.len() as int) is Some
}

/// State `i` with its best real action, and the smaller of its value and that of
/// the action.
pub open spec fn fixed_state(m: Model, s: Seq<State>, i: int) -> State {
    if is_fixable(m, s, i) {
        let (q, a) = real_best(m, s, s[i], m.actions.len() as int)->0;
        with_value(
            s[i],
            if q <= s[i].total_cost {
                q as u64
            } else {
                s[i].total_cost
            },
            Some(a),
        )
    } else {
        s[i]
    }
}

/// The states after the first `n` listed ones have been fixed in turn, and how many
/// needed it.
pub open spec fn fixed_list(
    m: Model,
    s: Seq<State>,
    list: Seq<(i32, i32, i32)>,
    n: int,
) -> (Seq<State>, int)
    decreases n,
{
    if n <= 0 {
        (s, 0)
    } else {
        let p = fixed_list(m, s, list, n - 1);
        let q = list[n - 1];
        let i = m.grid.at(q.0 as int, q.1 as int, q.2 as int);
        (
            p.0.update(i, fixed_state(m, p.0, i)),
            p.1 + if is_fixable(m, p.0, i) {
                1int
            } else {
                0int
            },
        )
    }
}

/// The states after the patches of the first `n` portals have been fixed in turn,
/// and how many states needed it.
pub open spec fn fixed_portals(
    a: SchurArtifact,
    m: Model,
    s: Seq<State>,
    n: int,
) -> (Seq<State>, int)
    decreases n,
{
    if n <= 0 {
        (s, 0)
    } else {
        let p = fixed_portals(a, m, s, n - 1);
        let list = map_patch(a, a.portals@[n - 1], PATCH_LEN as int);
        let q = fixed_list(m, p.0, list, list.len() as int);
        (q.0, p.1 + q.1)
    }
}

proof fn lemma_weighted_mono(
    g: Grid,
    s: Seq<State>,
    st: State,
    trs: Seq<StateTransition>,
    k: int,
    n: int,
)
    requires
        0 <= k <= n <= trs.len(),
        forall|j: int| 0 <= j < trs.len() ==> 0 <= (#[trigger] trs[j]).prob,
    ensures
        g.weighted(s, st, trs, k) <= g.weighted(s, st, trs, n),
    decreases n,
{
    if k < n {
        lemma_weighted_mono(g, s, st, trs, k, n - 1);
        let c = step_cost(s[g.succ(st, trs[n - 1])]);
        let p = trs[n - 1].prob;
        assert(0 <= c * p) by (nonlinear_arith)
            requires
                0 <= c,
                0 <= p,
        ;
    }
}

/// The cost of an action, if it is real.
fn real_cost(
    states: &Vec<State>,
    a: &Action,
    s: &State,
    nx: i32,
    ny: i32,
    nt: i32,
    Ghost(g): Ghost<Grid>,
) -> (r: Option<u64>)
    requires
        g == (Grid { nx: nx as int, ny: ny as int, nt: nt as int }),
        g.wf(),
        g.located(states@),
        g.action_ok(*a),
        on_grid(s.ix as int, s.iy as int, s.it as int, g.nx, g.ny, g.nt),
    ensures
        match r {
            None => !is_real(g, states@, *s, a.outcomes(s.it as int)),
            Some(c) => is_real(g, states@, *s, a.outcomes(s.it as int)) && c == exact_cost(
                g,
                states@,
                *s,
                a.outcomes(s.it as int),
            ),
        },
{
    let trs: &Vec<StateTransition> = &a.state_transitions[s.it as usize];
    assert(trs@ == a.outcomes(s.it as int));
    let limit: u128 = 68_719_476_736_000_000;
    assert(limit == REACH_THRESH * PROB_BASE);
    assert forall|j: int| 0 <= j < trs@.len() implies 0 <= (#[trigger] trs@[j]).prob by {
        assert(g.outcome_ok(a.outcomes(s.it as int)[j]));
    }
    let mut acc: u128 = 0;
    let mut k: usize = 0;
    while k < trs.len()
        invariant
            g == (Grid { nx: nx as int, ny: ny as int, nt: nt as int }),
            g.wf(),
            g.located(states@),
            0 < nt,
            trs@ == a.outcomes(s.it as int),
            on_grid(s.ix as int, s.iy as int, s.it as int, g.nx, g.ny, g.nt),
            g.action_ok(*a),
            forall|j: int| 0 <= j < trs@.len() ==> 0 <= (#[trigger] trs@[j]).prob,
            limit == REACH_THRESH * PROB_BASE,
            k <= trs.len(),
            forall|j: int|
                0 <= j < k ==> g.lands(states@, *s, #[trigger] trs@[j]) && states@[g.succ(
                    *s,
                    trs@[j],
                )].total_cost < REACH_THRESH,
            acc == g.weighted(states@, *s, trs@, k as int),
            acc < limit,
        decreases trs.len() - k,
    {
        let tr: StateTransition = trs[k];
        assert(g.outcome_ok(a.outcomes(s.it as int)[k as int]));
        let ix: i32 = s.ix + tr.dix;
        if ix < 0 || ix >= nx {
            assert(!g.lands(states@, *s, trs@[k as int]));
            return None;
        }
        let iy: i32 = s.iy + tr.diy;
        if iy < 0 || iy >= ny {
            assert(!g.lands(states@, *s, trs@[k as int]));
            return None;
        }
        let it: i32 = wrap_heading(tr.dit, nt);
        proof {
            lemma_succ_bound(g, *s, tr);
            assert(g.nx * (iy + 1) * g.nt <= g.nx * g.ny * g.nt) by (nonlinear_arith)
                requires
                    0 <= g.nx,
                    0 <= g.nt,
                    iy + 1 <= g.ny,
            ;
        }
        let idx: usize = to_index_raw(ix, iy, it, nx, nt) as usize;
        let after: &State = &states[idx];
        if !after.free || after.total_cost >= REACH_THRESH {
            assert(!(g.lands(states@, *s, trs@[k as int]) && states@[g.succ(
                *s,
                trs@[k as int],
            )].total_cost < REACH_THRESH));
            return None;
        }
        let term: u128 = after.total_cost as u128 + after.penalty as u128
            + after.local_penalty as u128;
        proof {
            assert(term == step_cost(*after));
            assert(0 <= term * tr.prob <= 0x3_0000_0000_0000_0000 * 0x8000_0000)
                by (nonlinear_arith)
                requires
                    0 <= term <= 0x3_0000_0000_0000_0000,
                    0 <= tr.prob <= 0x8000_0000,
            ;
        }
        acc = acc + term * tr.prob as u128;
        k += 1;
        if acc >= limit {
            proof {
                lemma_weighted_mono(g, states@, *s, trs@, k as int, trs@.len() as int);
                let w = g.weighted(states@, *s, trs@, trs@.len() as int);
                assert(w / (PROB_BASE as int) >= REACH_THRESH) by (nonlinear_arith)
                    requires
                        w >= REACH_THRESH * PROB_BASE,
                        PROB_BASE == 262144,
                ;
            }
            return None;
        }
    }
    proof {
        assert(acc >> 18u32 == acc / 262144u128) by (bit_vector);
        assert(acc / 262144u128 < REACH_THRESH);
    }
    Some((acc >> PROB_BASE_BIT) as u64)
}

/// Gives state `idx` its best real action, if it lacks a policy; returns whether it
/// did.
fn fix_state(vi: &mut ValueIterator, idx: usize) -> (r: bool)
    requires
        old(vi).wf(),
        idx < old(vi).states@.len(),
    ensures
        final(vi).wf(),
        final(vi).has_states(
            *old(vi),
            old(vi).states@.update(
                idx as int,
                fixed_state(old(vi).model(), old(vi).states@, idx as int),
            ),
        ),
        r == is_fixable(old(vi).model(), old(vi).states@, idx as int),
{
    let ghost m = vi.model();
    let ghost s0 = vi.states@;
    let ghost i = idx as int;
    let st: State = vi.states[idx];
    if !st.free || st.final_state || st.optimal_action.is_some() {
        assert(s0.update(i, fixed_state(m, s0, i)) =~= s0);
        return false;
    }
    assert(m.grid.located_at(s0[i], i));
    let mut best: Option<(u64, usize)> = None;
    let mut k: usize = 0;
    while k < vi.actions.len()
        invariant
            k <= vi.actions.len(),
            *vi == *old(vi),
            vi.wf(),
            m == vi.model(),
            s0 == vi.states@,
            st == s0[i],
            on_grid(st.ix as int, st.iy as int, st.it as int, m.grid.nx, m.grid.ny, m.grid.nt),
            match best {
                None => real_best(m, s0, st, k as int) is None,
                Some((q, a)) => real_best(m, s0, st, k as int) == Some((q as int, a)) && a < k,
            },
        decreases vi.actions.len() - k,
    {
        assert(m.grid.action_ok(m.actions[k as int]));
        let c: Option<u64> = real_cost(
            &vi.states,
            &vi.actions[k],
            &st,
            vi.cell_num_x,
            vi.cell_num_y,
            vi.cell_num_t,
            Ghost(m.grid),
        );
        if let Some(q) = c {
            let better: bool = match best {
                None => true,
                Some((b, _)) => q < b,
            };
            if better {
                best = Some((q, k));
            }
        }
        k += 1;
    }
    match best {
        None => {
            assert(s0.update(i, fixed_state(m, s0, i)) =~= s0);
            false
        },
        Some((q, a)) => {
            let mut s: State = st;
            if q <= s.total_cost {
                s.total_cost = q;
            }
            s.optimal_action = Some(a);
            vi.states.set(idx, s);
            proof {
                assert(vi.states@ =~= s0.update(i, fixed_state(m, s0, i)));
                assert forall|j: int| 0 <= j < vi.states@.len() implies m.grid.located_at(
                    #[trigger] vi.states@[j],
                    j,
                ) by {
                    assert(m.grid.located_at(s0[j], j));
                }
                assert forall|j: int| 0 <= j < vi.states@.len() implies ((
                #[trigger] vi.states@[j]).optimal_action matches Some(x) ==> x
                    < m.actions.len()) by {
                    assert(s0[j].optimal_action matches Some(x) ==> x < m.actions.len());
                }
            }
            true
        },
    }
}

proof fn lemma_fixed_list_bound(
    m: Model,
    s: Seq<State>,
    list: Seq<(i32, i32, i32)>,
    n: int,
)
    requires
        0 <= n,
    ensures
        0 <= fixed_list(m, s, list, n).1 <= n,
    decreases n,
{
    if n > 0 {
        lemma_fixed_list_bound(m, s, list, n - 1);
    }
}

proof fn lemma_map_patch_len(a: SchurArtifact, p: Portal, n: int)
    requires
        0 <= n,
    ensures
        map_patch(a, p, n).len() <= n,
    decreases n,
{
    if n > 0 {
        lemma_map_patch_len(a, p, n - 1);
    }
}

/// Gives the states of all portal patches that lack a policy their best real
/// action. Returns how many there were.
pub fn fix_portal_actions(vi: &mut ValueIterator, art: &SchurArtifact) -> (r: u64)
    requires
        old(vi).wf(),
        fits(*art, *old(vi)),
    ensures
        final(vi).wf(),
        ({
            let f = fixed_portals(
                *art,
                old(vi).model(),
                old(vi).states@,
                art.portals@.len() as int,
            );
            &&& final(vi).has_states(*old(vi), f.0)
            &&& r == f.1
        }),
        r <= art.portals@.len() * PATCH_LEN,
{
    let ghost m = vi.model();
    let ghost s0 = vi.states@;
    let ghost a = *art;
    let mut updates: u64 = 0;
    let mut k: usize = 0;
    while k < art.portals.len()
        invariant
            k <= art.portals.len(),
            a == *art,
            vi.wf(),
            m == old(vi).model(),
            vi.model() == m,
            s0 == old(vi).states@,
            fits(a, *old(vi)),
            vi.has_states(*old(vi), fixed_portals(a, m, s0, k as int).0),
            updates == fixed_portals(a, m, s0, k as int).1,
            updates <= k * PATCH_LEN,
        decreases art.portals.len() - k,
    {
        let p: Portal = art.portals[k];
        assert(portal_on(m.grid, a.portals@[k as int]));
        let list: Vec<(i32, i32, i32)> = art.patch_states(p);
        let ghost ls = map_patch(a, p, PATCH_LEN as int);
        let ghost s1 = vi.states@;
        let ghost u1 = updates;
        proof {
            lemma_map_patch(a, p, PATCH_LEN as int);
            lemma_map_patch_len(a, p, PATCH_LEN as int);
        }
        let mut j: usize = 0;
        while j < list.len()
            invariant
                j <= list.len(),
                list@ == ls,
                ls.len() <= PATCH_LEN,
                vi.wf(),
                m == old(vi).model(),
                vi.model() == m,
                fits(a, *old(vi)),
                a.nx == m.grid.nx,
                a.ny == m.grid.ny,
                a.nt == m.grid.nt,
                forall|j: int|
                    0 <= j < ls.len() ==> {
                        let q = #[trigger] ls[j];
                        on_grid(
                            q.0 as int,
                            q.1 as int,
                            q.2 as int,
                            a.nx as int,
                            a.ny as int,
                            a.nt as int,
                        )
                    },
                vi.has_states(*old(vi), fixed_list(m, s1, ls, j as int).0),
                updates == u1 + fixed_list(m, s1, ls, j as int).1,
                u1 <= a.portals@.len() * PATCH_LEN,
                a.portals@.len() < u32::MAX,
                0 <= fixed_list(m, s1, ls, j as int).1 <= j,
            decreases list.len() - j,
        {
            let (gx, gy, it) = list[j];
            assert(ls[j as int] == (gx, gy, it));
            let idx: usize = vi.to_index(gx, gy, it) as usize;
            let fixed: bool = fix_state(vi, idx);
            if fixed {
                updates += 1;
            }
            j += 1;
        }
        proof {
            lemma_fixed_list_bound(m, s1, ls, ls.len() as int);
        }
        k += 1;
    }
    updates
}

/// The action that a portal state gets is the first of the cheapest among those whose
/// outcomes all end in reached free states of the map; where there is none it gets none.
pub proof fn law_fixed_action_is_the_cheapest(m: Model, s: Seq<State>, st: State, k: int)
    requires
        0 <= k <= m.actions.len() <= usize::MAX,
    ensures
        match real_best(m, s, st, k) {
            Some((c, a)) => {
                let trs = m.actions[a as int].outcomes(st.it as int);
                &&& a < k
                &&& is_real(m.grid, s, st, trs)
                &&& c == exact_cost(m.grid, s, st, trs)
                &&& c < REACH_THRESH
                &&& forall|b: int|
                    0 <= b < k && is_real(
                        m.grid,
                        s,
                        st,
                        (#[trigger] m.actions[b]).outcomes(st.it as int),
                    ) ==> c <= exact_cost(m.grid, s, st, m.actions[b].outcomes(st.it as int)) && (b
                        < a ==> c < exact_cost(m.grid, s, st, m.actions[b].outcomes(st.it as int)))
            },
            None => forall|b: int|
                0 <= b < k ==> !is_real(
                    m.grid,
                    s,
                    st,
                    (#[trigger] m.actions[b]).outcomes(st.it as int),
                ),
        },
    decreases k,
{
    if k > 0 {
        law_fixed_action_is_the_cheapest(m, s, st, k - 1);
    }
}

/// Fixing a state gives it an action and never raises its value; a goal, a state that is not
/// free, and one that has an action stay as they are.
pub proof fn law_fixing_never_raises(m: Model, s: Seq<State>, i: int)
    requires
        m.wf(),
        0 <= i < s.len(),
        0 <= s[i].it < m.grid.nt,
    ensures
        ({
            let new = fixed_state(m, s, i);
            &&& new == with_value(s[i], new.total_cost, new.optimal_action)
            &&& !s[i].free || s[i].final_state || s[i].optimal_action is Some ==> new == s[i]
            &&& real_best(m, s, s[i], m.actions.len() as int) is None ==> new == s[i]
            &&& new.total_cost <= s[i].total_cost
            &&& is_fixable(m, s, i) ==> new.optimal_action == Some(
                (real_best(m, s, s[i], m.actions.len() as int)->0).1,
            )
        }),
{
    let n = m.actions.len() as int;
    law_fixed_action_is_the_cheapest(m, s, s[i], n);
    if let Some((c, a)) = real_best(m, s, s[i], n) {
        let it = s[i].it as int;
        let trs = m.actions[a as int].outcomes(it);
        assert(m.grid.action_ok(m.actions[a as int]));
        assert forall|j: int| 0 <= j < trs.len() implies 0 <= (#[trigger] trs[j]).prob by {
            assert(m.grid.outcome_ok(m.actions[a as int].outcomes(it)[j]));
        }
        lemma_weighted_nonneg(m.grid, s, s[i], trs, trs.len() as int);
        vstd::arithmetic::div_mod::lemma_div_pos_is_pos(
            m.grid.weighted(s, s[i], trs, trs.len() as int),
            PROB_BASE as int,
        );
    }
}

} // verus!
