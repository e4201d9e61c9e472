//! How far one action can carry the robot: the radius by which a frontier grows
//! in one round.
use vstd::prelude::*;

use crate::action::{Action, StateTransition};
use crate::model::{Grid, Model};
use crate::value_iterator::{wrap_heading, ValueIterator};

verus! {

/// The larger of two numbers.
pub open spec fn larger(a: int, b: int) -> int {
    if a >= b {
        a
    } else {
        b
    }
}

pub open spec fn magnitude(a: int) -> int {
    if a >= 0 {
        a
    } else {
        -a
    }
}

/// Steps between the headings `a` and `b`, the shorter way round.
pub open spec fn turn_between(a: int, b: int, nt: int) -> int {
    let d = magnitude(a - b);
    if d <= nt - d {
        d
    } else {
        nt - d
    }
}

/// The axes along which an outcome displaces the robot.
pub enum Axis {
    X,
    Y,
    Heading,
}

/// Displacement of one outcome, from heading `it`, along one axis.
pub open spec fn displacement_of(g: Grid, axis: Axis, it: int, tr: StateTransition) -> int {
    match axis {
        Axis::X => magnitude(tr.dix as int),
        Axis::Y => magnitude(tr.diy as int),
        Axis::Heading => turn_between(g.heading(tr), it, g.nt),
    }
}

/// Largest displacement among the first `k` outcomes.
pub open spec fn outcomes_reach(
    g: Grid,
    axis: Axis,
    it: int,
    trs: Seq<StateTransition>,
    k: int,
) -> int
    decreases k,
{
    if k <= 0 {
        0
    } else {
        larger(
            outcomes_reach(g, axis, it, trs, k - 1),
            displacement_of(g, axis, it, trs[k - 1]),
        )
    }
}

/// Largest displacement of the action `a` from the first `k` headings.
pub open spec fn action_reach(g: Grid, axis: Axis, a: Action, k: int) -> int
    decreases k,
{
    if k <= 0 {
        0
    } else {
        let trs = a.outcomes(k - 1);
        larger(
            action_reach(g, axis, a, k - 1),
            outcomes_reach(g, axis, k - 1, trs, trs.len() as int),
        )
    }
}

/// Largest displacement of the first `k` actions.
pub open spec fn actions_reach(m: Model, axis: Axis, k: int) -> int
    decreases k,
{
    if k <= 0 {
        0
    } else {
        larger(
            actions_reach(m, axis, k - 1),
            action_reach(m.grid, axis, m.actions[k - 1], m.grid.nt),
        )
    }
}

/// The largest displacement along `axis` that any outcome of any action has.
pub open spec fn reach(m: Model, axis: Axis) -> int {
    actions_reach(m, axis, m.actions.len() as int)
}

proof fn lemma_outcomes_reach(
    g: Grid,
    axis: Axis,
    it: int,
    trs: Seq<StateTransition>,
    k: int,
    j: int,
)
    requires
        0 <= j < k,
    ensures
        displacement_of(g, axis, it, trs[j]) <= outcomes_reach(g, axis, it, trs, k),
    decreases k,
{
    if j < k - 1 {
        lemma_outcomes_reach(g, axis, it, trs, k - 1, j);
    }
}

proof fn lemma_action_reach(g: Grid, axis: Axis, a: Action, k: int, it: int, j: int)
    requires
        0 <= it < k,
        0 <= j < a.outcomes(it).len(),
    ensures
        displacement_of(g, axis, it, a.outcomes(it)[j]) <= action_reach(g, axis, a, k),
    decreases k,
{
    if it < k - 1 {
        lemma_action_reach(g, axis, a, k - 1, it, j);
    } else {
        lemma_outcomes_reach(g, axis, it, a.outcomes(it), a.outcomes(it).len() as int, j);
    }
}

proof fn lemma_actions_reach(m: Model, axis: Axis, k: int, a: int, it: int, j: int)
    requires
        0 <= a < k,
        0 <= it < m.grid.nt,
        0 <= j < m.actions[a].outcomes(it).len(),
    ensures
        displacement_of(m.grid, axis, it, m.actions[a].outcomes(it)[j]) <= actions_reach(
            m,
            axis,
            k,
        ),
    decreases k,
{
    if a < k - 1 {
        lemma_actions_reach(m, axis, k - 1, a, it, j);
    } else {
        lemma_action_reach(m.grid, axis, m.actions[a], m.grid.nt, it, j);
    }
}

/// No outcome of any action goes further than `reach`.
pub proof fn law_reach_covers(m: Model, axis: Axis, a: int, it: int, j: int)
    requires
        0 <= a < m.actions.len(),
        0 <= it < m.grid.nt,
        0 <= j < m.actions[a].outcomes(it).len(),
    ensures
        displacement_of(m.grid, axis, it, m.actions[a].outcomes(it)[j]) <= reach(m, axis),
{
    lemma_actions_reach(m, axis, m.actions.len() as int, a, it, j);
}

/// No reach is below nothing.
pub proof fn lemma_reach_nonneg(m: Model, axis: Axis, k: int)
    ensures
        0 <= actions_reach(m, axis, k),
    decreases k,
{
    if k > 0 {
        lemma_reach_nonneg(m, axis, k - 1);
    }
}

/// The larger of two lengths.
fn larger_i32(a: i32, b: i32) -> (r: i32)
    ensures
        r == larger(a as int, b as int),
{
    if a >= b {
        a
    } else {
        b
    }
}

fn magnitude_i32(a: i32) -> (r: i32)
    requires
        a > i32::MIN,
    ensures
        r == magnitude(a as int),
{
    if a >= 0 {
        a
    } else {
        -a
    }
}

/// Steps between two headings, the shorter way round.
pub(crate) fn turn_i32(a: i32, b: i32, nt: i32) -> (r: i32)
    requires
        0 <= a < nt,
        0 <= b < nt,
    ensures
        r == turn_between(a as int, b as int, nt as int),
{
    let d: i32 = magnitude_i32(a - b);
    if d <= nt - d {
        d
    } else {
        nt - d
    }
}

/// Largest displacement of one list of outcomes along x, y and heading.
fn outcomes_displacement(trs: &Vec<StateTransition>, it: i32, nt: i32, Ghost(g): Ghost<Grid>) -> (r: (
    i32,
    i32,
    i32,
))
    requires
        0 <= it < nt,
        g.nt == nt,
        forall|k: int| 0 <= k < trs@.len() ==> g.outcome_ok(#[trigger] trs@[k]),
        g.wf(),
    ensures
        r.0 == outcomes_reach(g, Axis::X, it as int, trs@, trs@.len() as int),
        r.1 == outcomes_reach(g, Axis::Y, it as int, trs@, trs@.len() as int),
        r.2 == outcomes_reach(g, Axis::Heading, it as int, trs@, trs@.len() as int),
{
    let mut mx: i32 = 0;
    let mut my: i32 = 0;
    let mut mt: i32 = 0;
    let mut k: usize = 0;
    while k < trs.len()
        invariant
            0 <= it < nt,
            g.nt == nt,
            g.wf(),
            forall|k: int| 0 <= k < trs@.len() ==> g.outcome_ok(#[trigger] trs@[k]),
            k <= trs.len(),
            mx == outcomes_reach(g, Axis::X, it as int, trs@, k as int),
            my == outcomes_reach(g, Axis::Y, it as int, trs@, k as int),
            mt == outcomes_reach(g, Axis::Heading, it as int, trs@, k as int),
        decreases trs.len() - k,
    {
        let tr: StateTransition = trs[k];
        assert(g.outcome_ok(trs@[k as int]));
        mx = larger_i32(mx, magnitude_i32(tr.dix));
        my = larger_i32(my, magnitude_i32(tr.diy));
        let after: i32 = wrap_heading(tr.dit, nt);
        mt = larger_i32(mt, turn_i32(after, it, nt));
        k += 1;
    }
    (mx, my, mt)
}

/// The largest displacement of any outcome of any action along x, y and heading.
pub fn displacement(vi: &ValueIterator) -> (r: (i32, i32, i32))
    requires
        vi.model().wf(),
    ensures
        r.0 == reach(vi.model(), Axis::X),
        r.1 == reach(vi.model(), Axis::Y),
        r.2 == reach(vi.model(), Axis::Heading),
        r.0 >= 0,
        r.1 >= 0,
        r.2 >= 0,
{
    let ghost m = vi.model();
    let ghost g = m.grid;
    let nt: i32 = vi.cell_num_t;
    let mut mx: i32 = 0;
    let mut my: i32 = 0;
    let mut mt: i32 = 0;
    let mut k: usize = 0;
    while k < vi.actions.len()
        invariant
            m == vi.model(),
            m.wf(),
            g == m.grid,
            nt == vi.cell_num_t,
            k <= vi.actions.len(),
            mx == actions_reach(m, Axis::X, k as int),
            my == actions_reach(m, Axis::Y, k as int),
            mt == actions_reach(m, Axis::Heading, k as int),
            mx >= 0,
            my >= 0,
            mt >= 0,
        decreases vi.actions.len() - k,
    {
        let a: &Action = &vi.actions[k];
        assert(g.action_ok(m.actions[k as int]));
        let mut ax: i32 = 0;
        let mut ay: i32 = 0;
        let mut at: i32 = 0;
        let mut it: i32 = 0;
        while it < nt
            invariant
                g.wf(),
                g.nt == nt,
                g.action_ok(*a),
                0 <= it <= nt,
                ax == action_reach(g, Axis::X, *a, it as int),
                ay == action_reach(g, Axis::Y, *a, it as int),
                at == action_reach(g, Axis::Heading, *a, it as int),
            decreases nt - it,
        {
            let trs: &Vec<StateTransition> = &a.state_transitions[it as usize];
            assert(trs@ == a.outcomes(it as int));
            assert forall|k: int| 0 <= k < trs@.len() implies g.outcome_ok(#[trigger] trs@[k]) by {
                assert(g.outcome_ok(a.outcomes(it as int)[k]));
            }
            let (ox, oy, ot) = outcomes_displacement(trs, it, nt, Ghost(g));
            ax = larger_i32(ax, ox);
            ay = larger_i32(ay, oy);
            at = larger_i32(at, ot);
            it += 1;
        }
        mx = larger_i32(mx, ax);
        my = larger_i32(my, ay);
        mt = larger_i32(mt, at);
        k += 1;
    }
    (mx, my, mt)
}

/// The turn between two headings is the shorter way round: it is the same in both
/// directions, zero only for the same heading, at most half a turn, and as many headings on
/// or back lead from one to the other.
pub proof fn law_turn_is_the_shorter_way(a: int, b: int, nt: int)
    requires
        0 <= a < nt,
        0 <= b < nt,
    ensures
        turn_between(a, b, nt) == turn_between(b, a, nt),
        0 <= turn_between(a, b, nt),
        2 * turn_between(a, b, nt) <= nt,
        turn_between(a, b, nt) == 0 <==> a == b,
        (a + turn_between(a, b, nt)) % nt == b || (a - turn_between(a, b, nt)) % nt == b,
{
    let d = turn_between(a, b, nt);
    if d == magnitude(a - b) {
        vstd::arithmetic::div_mod::lemma_small_mod(b as nat, nt as nat);
    } else if a >= b {
        vstd::arithmetic::div_mod::lemma_fundamental_div_mod_converse(a + d, nt, 1, b);
    } else {
        vstd::arithmetic::div_mod::lemma_fundamental_div_mod_converse(a - d, nt, -1, b);
    }
}

/// The reach is no larger than needed: it is zero or the displacement of some outcome.
pub proof fn law_reach_is_attained(m: Model, axis: Axis)
    requires
        0 < reach(m, axis),
    ensures
        exists|a: int, it: int, j: int|
            #![trigger m.actions[a].outcomes(it)[j]]
            0 <= a < m.actions.len() && 0 <= it < m.grid.nt && 0 <= j < m.actions[a].outcomes(
                it,
            ).len() && displacement_of(m.grid, axis, it, m.actions[a].outcomes(it)[j]) == reach(
                m,
                axis,
            ),
{
    let a = lemma_actions_attained(m, axis, m.actions.len() as int);
    let it = lemma_action_attained(m.grid, axis, m.actions[a], m.grid.nt);
    let trs = m.actions[a].outcomes(it);
    let j = lemma_outcomes_attained(m.grid, axis, it, trs, trs.len() as int);
    assert(displacement_of(m.grid, axis, it, m.actions[a].outcomes(it)[j]) == reach(m, axis));
}

proof fn lemma_outcomes_attained(
    g: Grid,
    axis: Axis,
    it: int,
    trs: Seq<StateTransition>,
    k: int,
) -> (j: int)
    requires
        0 < outcomes_reach(g, axis, it, trs, k),
    ensures
        0 <= j < k,
        displacement_of(g, axis, it, trs[j]) == outcomes_reach(g, axis, it, trs, k),
    decreases k,
{
    if outcomes_reach(g, axis, it, trs, k) == outcomes_reach(g, axis, it, trs, k - 1) {
        lemma_outcomes_attained(g, axis, it, trs, k - 1)
    } else {
        k - 1
    }
}

proof fn lemma_action_attained(g: Grid, axis: Axis, a: Action, k: int) -> (it: int)
    requires
        0 < action_reach(g, axis, a, k),
    ensures
        0 <= it < k,
        outcomes_reach(g, axis, it, a.outcomes(it), a.outcomes(it).len() as int) == action_reach(
            g,
            axis,
            a,
            k,
        ),
    decreases k,
{
    if action_reach(g, axis, a, k) == action_reach(g, axis, a, k - 1) {
        lemma_action_attained(g, axis, a, k - 1)
    } else {
        k - 1
    }
}

proof fn lemma_actions_attained(m: Model, axis: Axis, k: int) -> (a: int)
    requires
        0 < actions_reach(m, axis, k),
    ensures
        0 <= a < k,
        action_reach(m.grid, axis, m.actions[a], m.grid.nt) == actions_reach(m, axis, k),
    decreases k,
{
    if actions_reach(m, axis, k) == actions_reach(m, axis, k - 1) {
        lemma_actions_attained(m, axis, k - 1)
    } else {
        k - 1
    }
}

/// The displacement of an outcome along an axis is how many columns or rows it leads away, in
/// either direction.
pub proof fn law_displacement_counts_cells(g: Grid, it: int, tr: StateTransition)
    ensures
        -displacement_of(g, Axis::X, it, tr) <= tr.dix <= displacement_of(g, Axis::X, it, tr),
        -displacement_of(g, Axis::Y, it, tr) <= tr.diy <= displacement_of(g, Axis::Y, it, tr),
        displacement_of(g, Axis::X, it, tr) == tr.dix || displacement_of(g, Axis::X, it, tr)
            == -tr.dix,
        displacement_of(g, Axis::Y, it, tr) == tr.diy || displacement_of(g, Axis::Y, it, tr)
            == -tr.diy,
{
}

} // verus!
