//! Acting when it is not known where the robot is: the action that is best on average
//! over the places where it may be.
use vstd::prelude::*;

use crate::grid::on_grid;
use crate::model::law_best_is_least;
use crate::params::MAX_COST;
use crate::planner::on_lattice;
use crate::state::State;
use crate::value_iterator::{action_cost_raw, ValueIterator};

verus! {

/// What to do.
#[derive(Clone, Copy, Debug, PartialEq, Eq, Structural)]
pub enum QmdpDecision {
    /// Most of the weight lies in the goal.
    Goal,
    /// Take the action with this index.
    Action(usize),
    /// Stop: no hypothesis can be judged, or the best action is too dangerous.
    NoAction,
}

/// An action is refused when more than one part in this many of the weight collides.
pub const VETO_PARTS: u64 = 5;

/// A place where the robot may be, and how much weight it has. Only ratios of weights
/// matter.
#[derive(Clone, Copy, Debug, PartialEq, Eq, Structural)]
pub struct Hypothesis {
    pub ix: i32,
    pub iy: i32,
    pub it: i32,
    pub weight: u32,
}

impl Hypothesis {
    /// The state that the hypothesis names.
    pub open spec fn state(self, vi: ValueIterator) -> State {
        vi.state_at(self.ix as int, self.iy as int, self.it as int)
    }

    /// The hypothesis names a free state of the map.
    pub open spec fn counts(self, vi: ValueIterator) -> bool {
        on_lattice(vi.grid(), self.ix as int, self.iy as int, self.it as int) && self.state(vi).free
    }

    /// Weight that speaks for the goal.
    pub open spec fn goal_weight(self, vi: ValueIterator) -> int {
        if self.counts(vi) && self.state(vi).final_state {
            self.weight as int
        } else {
            0
        }
    }

    /// Weight by which actions are judged.
    pub open spec fn action_weight(self, vi: ValueIterator) -> int {
        if self.counts(vi) && !self.state(vi).final_state {
            self.weight as int
        } else {
            0
        }
    }

    /// Expected cost of action `a`.
    pub open spec fn q(self, vi: ValueIterator, a: int) -> int {
        vi.grid().cost(vi.states@, self.state(vi), vi.actions@[a])
    }

    /// Weight for which action `a` collides.
    pub open spec fn collision_weight(self, vi: ValueIterator, a: int) -> int {
        if self.q(vi, a) == MAX_COST {
            self.action_weight(vi)
        } else {
            0
        }
    }
}

/// Weight of the first `n` hypotheses that speaks for the goal.
pub open spec fn goal_mass(vi: ValueIterator, hyps: Seq<Hypothesis>, n: int) -> int
    decreases n,
{
    if n <= 0 {
        0
    } else {
        goal_mass(vi, hyps, n - 1) + hyps[n - 1].goal_weight(vi)
    }
}

/// Weight of the first `n` hypotheses by which actions are judged.
pub open spec fn usable_mass(vi: ValueIterator, hyps: Seq<Hypothesis>, n: int) -> int
    decreases n,
{
    if n <= 0 {
        0
    } else {
        usable_mass(vi, hyps, n - 1) + hyps[n - 1].action_weight(vi)
    }
}

/// Weighted cost of action `a` over the first `n` hypotheses.
pub open spec fn q_mass(vi: ValueIterator, hyps: Seq<Hypothesis>, a: int, n: int) -> int
    decreases n,
{
    if n <= 0 {
        0
    } else {
        q_mass(vi, hyps, a, n - 1) + hyps[n - 1].action_weight(vi) * hyps[n - 1].q(vi, a)
    }
}

/// Weight of the first `n` hypotheses for which action `a` collides.
pub open spec fn collision_mass(vi: ValueIterator, hyps: Seq<Hypothesis>, a: int, n: int) -> int
    decreases n,
{
    if n <= 0 {
        0
    } else {
        collision_mass(vi, hyps, a, n - 1) + hyps[n - 1].collision_weight(vi, a)
    }
}

/// The first of the first `k` actions that costs least on average.
pub open spec fn cheapest(vi: ValueIterator, hyps: Seq<Hypothesis>, k: int) -> int
    decreases k,
{
    if k <= 1 {
        0
    } else {
        let n = hyps.len() as int;
        let b = cheapest(vi, hyps, k - 1);
        if q_mass(vi, hyps, k - 1, n) < q_mass(vi, hyps, b, n) {
            k - 1
        } else {
            b
        }
    }
}

/// More than half of the weight that counts is at the goal, or none counts: no action has
/// to be picked.
pub open spec fn asks_no_action(vi: ValueIterator, hyps: Seq<Hypothesis>) -> bool {
    let n = hyps.len() as int;
    let usable = usable_mass(vi, hyps, n);
    let at_goal = goal_mass(vi, hyps, n);
    usable + at_goal <= 0 || 2 * at_goal > usable + at_goal
}

/// What to do, given where the robot may be.
pub open spec fn decision(vi: ValueIterator, hyps: Seq<Hypothesis>) -> QmdpDecision {
    let n = hyps.len() as int;
    let usable = usable_mass(vi, hyps, n);
    let at_goal = goal_mass(vi, hyps, n);
    let best = cheapest(vi, hyps, vi.actions@.len() as int);
    if usable + at_goal <= 0 {
        QmdpDecision::NoAction
    } else if 2 * at_goal > usable + at_goal {
        QmdpDecision::Goal
    } else if VETO_PARTS * collision_mass(vi, hyps, best, n) > usable {
        QmdpDecision::NoAction
    } else {
        QmdpDecision::Action(best as usize)
    }
}

proof fn lemma_masses(vi: ValueIterator, hyps: Seq<Hypothesis>, n: int)
    requires
        0 <= n <= hyps.len(),
    ensures
        0 <= goal_mass(vi, hyps, n),
        0 <= usable_mass(vi, hyps, n),
        goal_mass(vi, hyps, n) + usable_mass(vi, hyps, n) <= n * 0xffff_ffff,
    decreases n,
{
    if n > 0 {
        lemma_masses(vi, hyps, n - 1);
        assert((n - 1) * 0xffff_ffff + 0xffff_ffff == n * 0xffff_ffff) by (nonlinear_arith);
    }
}

proof fn lemma_collisions(vi: ValueIterator, hyps: Seq<Hypothesis>, a: int, n: int)
    requires
        0 <= n <= hyps.len(),
    ensures
        0 <= collision_mass(vi, hyps, a, n) <= usable_mass(vi, hyps, n),
    decreases n,
{
    if n > 0 {
        lemma_collisions(vi, hyps, a, n - 1);
    }
}

proof fn lemma_cheapest(vi: ValueIterator, hyps: Seq<Hypothesis>, k: int)
    requires
        1 <= k,
    ensures
        0 <= cheapest(vi, hyps, k) < k,
        forall|a: int|
            0 <= a < k ==> q_mass(vi, hyps, cheapest(vi, hyps, k), hyps.len() as int) <= #[trigger]
                q_mass(vi, hyps, a, hyps.len() as int),
        forall|a: int|
            0 <= a < cheapest(vi, hyps, k) ==> q_mass(
                vi,
                hyps,
                cheapest(vi, hyps, k),
                hyps.len() as int,
            ) < #[trigger] q_mass(vi, hyps, a, hyps.len() as int),
    decreases k,
{
    if k > 1 {
        lemma_cheapest(vi, hyps, k - 1);
    }
}

/// Whether an action has to be picked.
pub fn asks_action(vi: &ValueIterator, hyps: &Vec<Hypothesis>) -> (r: bool)
    requires
        vi.wf(),
        hyps@.len() <= u32::MAX,
    ensures
        r == !asks_no_action(*vi, hyps@),
{
    let ghost hs = hyps@;
    let mut usable: u64 = 0;
    let mut at_goal: u64 = 0;
    let mut k: usize = 0;
    while k < hyps.len()
        invariant
            vi.wf(),
            hs == hyps@,
            hs.len() <= u32::MAX,
            k <= hs.len(),
            usable == usable_mass(*vi, hs, k as int),
            at_goal == goal_mass(*vi, hs, k as int),
        decreases hyps.len() - k,
    {
        let h: Hypothesis = hyps[k];
        let ghost k1 = k + 1;
        proof {
            lemma_masses(*vi, hs, k as int);
            lemma_masses(*vi, hs, k1 as int);
            assert(k1 * 0xffff_ffff <= 0xffff_ffff * 0xffff_ffff) by (nonlinear_arith)
                requires
                    0 <= k1 <= 0xffff_ffff,
            ;
        }
        if h.ix >= 0 && h.ix < vi.cell_num_x && h.iy >= 0 && h.iy < vi.cell_num_y && h.it >= 0
            && h.it < vi.cell_num_t {
            let s: &State = &vi.states[vi.to_index(h.ix, h.iy, h.it) as usize];
            assert(*s == h.state(*vi));
            if s.free {
                if s.final_state {
                    at_goal += h.weight as u64;
                } else {
                    usable += h.weight as u64;
                }
            }
        }
        k += 1;
    }
    proof {
        lemma_masses(*vi, hs, hs.len() as int);
    }
    usable > 0 && at_goal <= usable
}

/// What to do, given where the robot may be: its average over the hypotheses decides.
/// Hypotheses off the map or in a wall do not count.
pub fn qmdp_decide(vi: &ValueIterator, hyps: &Vec<Hypothesis>) -> (r: QmdpDecision)
    requires
        vi.wf(),
        vi.actions@.len() > 0 || asks_no_action(*vi, hyps@),
        hyps@.len() <= u32::MAX,
    ensures
        r == decision(*vi, hyps@),
{
    let ghost v = *vi;
    let ghost hs = hyps@;
    let na: usize = vi.actions.len();
    let mut qb: Vec<u128> = vec![0; na];
    let mut veto: Vec<u64> = vec![0; na];
    let mut usable: u64 = 0;
    let mut at_goal: u64 = 0;
    let mut k: usize = 0;
    while k < hyps.len()
        invariant
            vi.wf(),
            v == *vi,
            hs == hyps@,
            hs.len() <= u32::MAX,
            na == v.actions@.len(),
            k <= hs.len(),
            usable == usable_mass(v, hs, k as int),
            at_goal == goal_mass(v, hs, k as int),
            qb@.len() == na,
            veto@.len() == na,
            forall|a: int|
                0 <= a < na ==> #[trigger] qb@[a] == q_mass(v, hs, a, k as int) && qb@[a]
                    <= usable * 0xffff_ffff_ffff_ffff,
            forall|a: int| 0 <= a < na ==> #[trigger] veto@[a] == collision_mass(v, hs, a, k as int),
        decreases hyps.len() - k,
    {
        let h: Hypothesis = hyps[k];
        let ghost k1 = k + 1;
        proof {
            lemma_masses(v, hs, k as int);
            lemma_masses(v, hs, k1 as int);
            assert(k1 * 0xffff_ffff <= 0xffff_ffff * 0xffff_ffff) by (nonlinear_arith)
                requires
                    0 <= k1 <= 0xffff_ffff,
            ;
        }
        let on: bool = h.ix >= 0 && h.ix < vi.cell_num_x && h.iy >= 0 && h.iy < vi.cell_num_y
            && h.it >= 0 && h.it < vi.cell_num_t;
        let mut judged: bool = false;
        if on {
            let i: usize = vi.to_index(h.ix, h.iy, h.it) as usize;
            let s: &State = &vi.states[i];
            assert(*s == h.state(v));
            if s.free {
                if s.final_state {
                    at_goal += h.weight as u64;
                } else {
                    judged = true;
                }
            }
        }
        if judged {
            let i: usize = vi.to_index(h.ix, h.iy, h.it) as usize;
            let s: State = vi.states[i];
            let ghost u0 = usable;
            usable += h.weight as u64;
            let mut a: usize = 0;
            while a < na
                invariant
                    vi.wf(),
                    v == *vi,
                    hs == hyps@,
                    na == v.actions@.len(),
                    k < hs.len() <= u32::MAX,
                    h == hs[k as int],
                    h.counts(v),
                    s == h.state(v),
                    !s.final_state,
                    on_grid(
                        s.ix as int,
                        s.iy as int,
                        s.it as int,
                        vi.cell_num_x as int,
                        vi.cell_num_y as int,
                        vi.cell_num_t as int,
                    ),
                    usable == u0 + h.weight,
                    usable == usable_mass(v, hs, k + 1),
                    a <= na,
                    qb@.len() == na,
                    veto@.len() == na,
                    forall|b: int|
                        0 <= b < a ==> #[trigger] qb@[b] == q_mass(v, hs, b, k + 1) && qb@[b]
                            <= usable * 0xffff_ffff_ffff_ffff,
                    forall|b: int|
                        a <= b < na ==> #[trigger] qb@[b] == q_mass(v, hs, b, k as int) && qb@[b]
                            <= u0 * 0xffff_ffff_ffff_ffff,
                    forall|b: int|
                        0 <= b < a ==> #[trigger] veto@[b] == collision_mass(v, hs, b, k + 1),
                    forall|b: int|
                        a <= b < na ==> #[trigger] veto@[b] == collision_mass(v, hs, b, k as int),
                decreases na - a,
            {
                assert(v.grid().action_ok(v.actions@[a as int]));
                let q: u64 = action_cost_raw(
                    &vi.states,
                    &vi.actions[a],
                    &s,
                    vi.cell_num_x,
                    vi.cell_num_y,
                    vi.cell_num_t,
                );
                proof {
                    assert(q == h.q(v, a as int));
                    let w = h.weight as int;
                    assert(0 <= w * q <= w * 0xffff_ffff_ffff_ffff) by (nonlinear_arith)
                        requires
                            0 <= w,
                            0 <= q <= 0xffff_ffff_ffff_ffff,
                    ;
                    assert(u0 * 0xffff_ffff_ffff_ffff + w * 0xffff_ffff_ffff_ffff == usable
                        * 0xffff_ffff_ffff_ffff) by (nonlinear_arith)
                        requires
                            usable == u0 + w,
                    ;
                    lemma_collisions(v, hs, a as int, k as int);
                    lemma_collisions(v, hs, a as int, k + 1);
                }
                qb.set(a, qb[a] + h.weight as u128 * q as u128);
                if q == MAX_COST {
                    veto.set(a, veto[a] + h.weight as u64);
                }
                a += 1;
            }
        } else {
            proof {
                assert(h.action_weight(v) == 0);
                assert forall|a: int| 0 <= a < na implies #[trigger] qb@[a] == q_mass(
                    v,
                    hs,
                    a,
                    k + 1,
                ) by {
                    assert(0 * h.q(v, a) == 0);
                }
            }
        }
        k += 1;
    }
    let ghost n = hs.len() as int;
    proof {
        lemma_masses(v, hs, n);
    }
    if usable == 0 && at_goal == 0 {
        return QmdpDecision::NoAction;
    }
    if 2 * at_goal as u128 > usable as u128 + at_goal as u128 {
        return QmdpDecision::Goal;
    }
    let mut best: usize = 0;
    let mut a: usize = 1;
    while a < na
        invariant
            1 <= a <= na,
            na == v.actions@.len(),
            n == hs.len(),
            qb@.len() == na,
            forall|b: int| 0 <= b < na ==> #[trigger] qb@[b] == q_mass(v, hs, b, n),
            best == cheapest(v, hs, a as int),
            best < a,
        decreases na - a,
    {
        assert(qb@[best as int] == q_mass(v, hs, best as int, n));
        assert(qb@[a as int] == q_mass(v, hs, a as int, n));
        if qb[a] < qb[best] {
            best = a;
        }
        a += 1;
    }
    assert(veto@[best as int] == collision_mass(v, hs, best as int, n));
    if VETO_PARTS as u128 * veto[best] as u128 > usable as u128 {
        return QmdpDecision::NoAction;
    }
    QmdpDecision::Action(best)
}

/// The action that is taken costs no more on average than any other, and at most a fifth
/// of the weight collides.
pub proof fn law_action_is_best_and_safe(vi: ValueIterator, hyps: Seq<Hypothesis>, other: int)
    requires
        0 <= other < vi.actions@.len(),
        vi.actions@.len() <= usize::MAX,
        decision(vi, hyps) is Action,
    ensures
        ({
            let a = decision(vi, hyps)->Action_0 as int;
            let n = hyps.len() as int;
            &&& 0 <= a < vi.actions@.len()
            &&& q_mass(vi, hyps, a, n) <= q_mass(vi, hyps, other, n)
            &&& 5 * collision_mass(vi, hyps, a, n) <= usable_mass(vi, hyps, n)
        }),
{
    lemma_cheapest(vi, hyps, vi.actions@.len() as int);
}

/// With one hypothesis, the action that is taken is the policy's own.
pub proof fn law_single_hypothesis_is_greedy(vi: ValueIterator, h: Hypothesis)
    requires
        vi.wf(),
        0 < vi.actions@.len() <= usize::MAX,
        h.counts(vi),
        !h.state(vi).final_state,
        h.weight > 0,
        vi.model().best(vi.states@, h.state(vi), vi.actions@.len() as int).1 is Some,
    ensures
        decision(vi, seq![h]) == QmdpDecision::Action(
            vi.model().best(vi.states@, h.state(vi), vi.actions@.len() as int).1->0,
        ),
{
    let m = vi.model();
    let k = vi.actions@.len() as int;
    let hs = seq![h];
    assert(hs.len() == 1 && hs[0] == h);
    let w = h.weight as int;
    assert forall|a: int| 0 <= a < k implies #[trigger] q_mass(vi, hs, a, 1) == w * h.q(vi, a) by {
        assert(q_mass(vi, hs, a, 0) == 0);
    }
    assert(usable_mass(vi, hs, 1) == w) by {
        assert(usable_mass(vi, hs, 0) == 0);
    }
    assert(goal_mass(vi, hs, 1) == 0) by {
        assert(goal_mass(vi, hs, 0) == 0);
    }
    lemma_cheapest(vi, hs, k);
    law_best_is_least(m, vi.states@, h.state(vi), k);
    let b = m.best(vi.states@, h.state(vi), k);
    let best = b.1->0 as int;
    let c = cheapest(vi, hs, k);
    assert(q_mass(vi, hs, c, 1) <= q_mass(vi, hs, best, 1));
    lemma_scaled(w, h.q(vi, c), h.q(vi, best));
    if c < best {
        assert(h.q(vi, c) <= h.q(vi, best));
    }
    if best < c {
        assert(q_mass(vi, hs, c, 1) < q_mass(vi, hs, best, 1));
        lemma_scaled(w, h.q(vi, best), h.q(vi, c));
    }
    assert(collision_mass(vi, hs, c, 0) == 0);
}

proof fn lemma_scaled(w: int, a: int, b: int)
    requires
        0 < w,
    ensures
        w * a <= w * b <==> a <= b,
        w * a < w * b <==> a < b,
{
    assert((w * a <= w * b <==> a <= b) && (w * a < w * b <==> a < b)) by (nonlinear_arith)
        requires
            0 < w,
    ;
}

/// The weights of the hypotheses are parted: those on free states of the map count, for the
/// goal or for an action, and no other counts.
pub proof fn law_weights_are_parted(vi: ValueIterator, hyps: Seq<Hypothesis>, n: int)
    requires
        0 < n <= hyps.len(),
    ensures
        ({
            let h = hyps[n - 1];
            let s = vi.states@[vi.grid().at(h.ix as int, h.iy as int, h.it as int)];
            let here = 0 <= h.ix < vi.cell_num_x && 0 <= h.iy < vi.cell_num_y && 0 <= h.it
                < vi.cell_num_t;
            let goal = goal_mass(vi, hyps, n) - goal_mass(vi, hyps, n - 1);
            let act = usable_mass(vi, hyps, n) - usable_mass(vi, hyps, n - 1);
            &&& goal + act == if here && s.free {
                h.weight as int
            } else {
                0
            }
            &&& here && s.free && s.final_state ==> goal == h.weight && act == 0
            &&& here && s.free && !s.final_state ==> act == h.weight && goal == 0
        }),
{
}

/// A hypothesis that does not count changes nothing.
pub proof fn law_uncounted_hypotheses_are_ignored(
    vi: ValueIterator,
    hyps: Seq<Hypothesis>,
    h: Hypothesis,
)
    requires
        !h.counts(vi) || h.weight == 0,
    ensures
        decision(vi, hyps.push(h)) == decision(vi, hyps),
{
    let n = hyps.len() as int;
    let l = hyps.push(h);
    assert(h.action_weight(vi) == 0 && h.goal_weight(vi) == 0);
    assert forall|a: int| #[trigger] q_mass(vi, l, a, n + 1) == q_mass(vi, hyps, a, n) by {
        lemma_mass_frame(vi, hyps, h, a, n);
        assert(0 * h.q(vi, a) == 0);
    }
    assert forall|a: int| #[trigger]
        collision_mass(vi, l, a, n + 1) == collision_mass(vi, hyps, a, n) by {
        lemma_mass_frame(vi, hyps, h, a, n);
    }
    lemma_mass_frame(vi, hyps, h, 0, n);
    lemma_cheapest_frame(vi, hyps, l, vi.actions@.len() as int);
}

proof fn lemma_mass_frame(
    vi: ValueIterator,
    hyps: Seq<Hypothesis>,
    h: Hypothesis,
    a: int,
    n: int,
)
    requires
        n <= hyps.len(),
    ensures
        q_mass(vi, hyps.push(h), a, n) == q_mass(vi, hyps, a, n),
        collision_mass(vi, hyps.push(h), a, n) == collision_mass(vi, hyps, a, n),
        goal_mass(vi, hyps.push(h), n) == goal_mass(vi, hyps, n),
        usable_mass(vi, hyps.push(h), n) == usable_mass(vi, hyps, n),
    decreases n,
{
    if n > 0 {
        lemma_mass_frame(vi, hyps, h, a, n - 1);
    }
}

proof fn lemma_cheapest_frame(
    vi: ValueIterator,
    hyps: Seq<Hypothesis>,
    l: Seq<Hypothesis>,
    k: int,
)
    requires
        forall|a: int| #[trigger]
            q_mass(vi, l, a, l.len() as int) == q_mass(vi, hyps, a, hyps.len() as int),
    ensures
        cheapest(vi, l, k) == cheapest(vi, hyps, k),
    decreases k,
{
    if k > 1 {
        lemma_cheapest_frame(vi, hyps, l, k - 1);
    }
}

/// The goal counts as reached exactly where more than half of the counting weight is there;
/// nothing is done exactly where nothing counts, or where the first of the cheapest actions
/// collides with more than a fifth of the weight that is not at the goal.
pub proof fn law_decision_goes_by_weight(vi: ValueIterator, hyps: Seq<Hypothesis>)
    requires
        0 < vi.actions@.len() <= usize::MAX,
    ensures
        ({
            let n = hyps.len() as int;
            let (goal, act) = (goal_mass(vi, hyps, n), usable_mass(vi, hyps, n));
            let d = decision(vi, hyps);
            let best = cheapest(vi, hyps, vi.actions@.len() as int);
            &&& d is Goal <==> goal > act
            &&& d is NoAction <==> goal + act == 0 || (goal <= act && 5 * collision_mass(
                vi,
                hyps,
                best,
                n,
            ) > act)
            &&& (d matches QmdpDecision::Action(a) ==> a == best)
            &&& forall|a: int|
                0 <= a < vi.actions@.len() ==> q_mass(vi, hyps, best, n) <= #[trigger] q_mass(
                    vi,
                    hyps,
                    a,
                    n,
                )
            &&& forall|a: int|
                0 <= a < best ==> q_mass(vi, hyps, best, n) < #[trigger] q_mass(vi, hyps, a, n)
        }),
{
    lemma_masses(vi, hyps, hyps.len() as int);
    lemma_cheapest(vi, hyps, vi.actions@.len() as int);
}

} // verus!
