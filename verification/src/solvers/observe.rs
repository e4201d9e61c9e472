//! Watching a solver from outside, and stopping it between rounds.
use vstd::prelude::*;

use crate::state::State;
use crate::value_iterator::ValueIterator;

verus! {

/// What an observer wants the solver to do next.
#[derive(Clone, Copy, Debug, PartialEq, Eq, Structural)]
pub enum SolveFlow {
    Continue,
    /// Stop here: the values so far are good enough.
    Stop,
    /// Stop here: nobody wants the result any more.
    Cancel,
}

/// Called by a solver between two rounds.
pub trait SolveObserver {
    /// Whether this observer may ever answer anything but `Continue`.
    open spec fn may_interrupt(&self) -> bool {
        true
    }

    /// The rounds after which it was asked whether it wants to look, and what it said.
    open spec fn asked(&self) -> Seq<(u64, bool)> {
        Seq::empty()
    }

    /// What it was shown, and what it answered.
    open spec fn answers(&self) -> Seq<Answer> {
        Seq::empty()
    }

    /// Whether the observer wants to see the boundary after round `iters`.
    fn due(&mut self, iters: u64) -> (r: bool)
        ensures
            final(self).may_interrupt() == old(self).may_interrupt(),
            old(self).may_interrupt() ==> final(self).asked() == old(self).asked().push((iters, r)),
            old(self).may_interrupt() ==> final(self).answers() == old(self).answers(),
    ;

    /// Looks at the values after round `iters` and decides how to go on.
    fn boundary(&mut self, vi: &ValueIterator, iters: u32, updates: u64) -> (r: SolveFlow)
        ensures
            final(self).may_interrupt() == old(self).may_interrupt(),
            !old(self).may_interrupt() ==> r == SolveFlow::Continue,
            old(self).may_interrupt() ==> final(self).asked() == old(self).asked(),
            old(self).may_interrupt() ==> final(self).answers() == old(self).answers().push(
                answer_to(iters, vi.states@, updates, r),
            ),
    ;
}

/// What there is to see after a round: the field, and how many updates led to it.
pub struct Sight {
    pub states: Seq<State>,
    pub updates: int,
}

/// An observer was shown `sight` after round `iters` and answered `flow`.
pub struct Answer {
    pub iters: u32,
    pub sight: Sight,
    pub flow: SolveFlow,
}

/// The answer `flow` to the field `states` after round `iters` and `updates` updates.
pub open spec fn answer_to(iters: u32, states: Seq<State>, updates: u64, flow: SolveFlow) -> Answer {
    Answer { iters, sight: Sight { states, updates: updates as int }, flow }
}

/// All that has passed between an observer and solvers.
pub struct Log {
    pub asked: Seq<(u64, bool)>,
    pub answers: Seq<Answer>,
}

/// What has passed between `o` and solvers so far.
pub open spec fn log_of<O: SolveObserver>(o: O) -> Log {
    Log { asked: o.asked(), answers: o.answers() }
}

/// The rounds among the entries `from` to `n` of `asked` that the observer wanted to see.
pub open spec fn wanted(asked: Seq<(u64, bool)>, from: int, n: int) -> Seq<int>
    decreases n - from,
{
    if n <= from {
        Seq::empty()
    } else if asked[n - 1].1 {
        wanted(asked, from, n - 1).push(asked[n - 1].0 as int)
    } else {
        wanted(asked, from, n - 1)
    }
}

/// Between `a` and `b`, the observer was asked once after each of the `asks` rounds from
/// `first` on, in order. It was shown exactly the rounds that it wanted to see, in order,
/// each with the field and the updates up to there, which `sights` tells.
pub open spec fn was_shown(
    a: Log,
    b: Log,
    first: int,
    asks: int,
    sights: spec_fn(int) -> Sight,
) -> bool {
    let (n, k) = (a.asked.len() as int, a.answers.len() as int);
    let w = wanted(b.asked, n, n + asks);
    &&& 0 <= asks
    &&& b.asked.len() == n + asks
    &&& b.asked.take(n) == a.asked
    &&& forall|j: int| 0 <= j < asks ==> (#[trigger] b.asked[n + j]).0 == first + j
    &&& b.answers.len() == k + w.len()
    &&& b.answers.take(k) == a.answers
    &&& forall|j: int|
        0 <= j < w.len() ==> (#[trigger] b.answers[k + j]).iters == w[j] && b.answers[k + j].sight
            == sights(w[j])
}

/// All answers between `a` and `b`, or all but the last, were to continue.
pub open spec fn continued(a: Log, b: Log, but_last: bool) -> bool {
    let n = b.answers.len() - if but_last {
        1int
    } else {
        0
    };
    forall|j: int|
        a.answers.len() <= j < n ==> (#[trigger] b.answers[j]).flow == SolveFlow::Continue
}

/// The observer's answer between `a` and `b` at the end of the solve was `flow`.
pub open spec fn answered(a: Log, b: Log, out: SolveOutcome, flow: SolveFlow) -> bool {
    &&& b.answers.len() > a.answers.len()
    &&& b.answers.last().iters == out.iters
    &&& b.answers.last().sight.updates == out.updates
    &&& b.answers.last().flow == flow
}

/// The solver did as the observer answered: every answer but the last was to continue, and
/// the solve was stopped (cancelled) exactly where the last one says so.
pub open spec fn obeyed(a: Log, b: Log, out: SolveOutcome) -> bool {
    &&& continued(a, b, out.interrupted())
    &&& out.stopped <==> answered(a, b, out, SolveFlow::Stop)
    &&& out.cancelled <==> answered(a, b, out, SolveFlow::Cancel)
}

/// The rounds after which an observer is asked: all `n`, but for the last where that left
/// no work.
pub open spec fn asks_of(n: int, work_left: bool) -> int {
    if n <= 0 {
        0
    } else if work_left {
        n
    } else {
        n - 1
    }
}

proof fn lemma_wanted_prefix(a: Seq<(u64, bool)>, b: Seq<(u64, bool)>, from: int, n: int)
    requires
        0 <= from,
        n <= a.len() <= b.len(),
        b.take(a.len() as int) == a,
    ensures
        wanted(b, from, n) == wanted(a, from, n),
    decreases n - from,
{
    if n > from {
        lemma_wanted_prefix(a, b, from, n - 1);
        assert(b.take(a.len() as int)[n - 1] == b[n - 1]);
    }
}

proof fn lemma_wanted_parts(a: Seq<(u64, bool)>, from: int, mid: int, n: int)
    requires
        0 <= from <= mid <= n <= a.len(),
    ensures
        wanted(a, from, n) == wanted(a, from, mid) + wanted(a, mid, n),
    decreases n - mid,
{
    if n > mid {
        lemma_wanted_parts(a, from, mid, n - 1);
        assert(wanted(a, from, n) =~= wanted(a, from, mid) + wanted(a, mid, n));
    } else {
        assert(wanted(a, from, n) =~= wanted(a, from, mid) + wanted(a, mid, n));
    }
}

/// Nothing has passed yet.
pub proof fn lemma_nothing_shown(a: Log, first: int, sights: spec_fn(int) -> Sight)
    ensures
        was_shown(a, a, first, 0, sights),
        continued(a, a, false),
{
    assert(a.asked.take(a.asked.len() as int) =~= a.asked);
    assert(a.answers.take(a.answers.len() as int) =~= a.answers);
}

/// The observer was asked once more.
pub proof fn lemma_asked_once_more(
    a: Log,
    b: Log,
    c: Log,
    first: int,
    asks: int,
    sights: spec_fn(int) -> Sight,
    said: bool,
    flow: SolveFlow,
)
    requires
        was_shown(a, b, first, asks, sights),
        continued(a, b, false),
        0 <= first,
        first + asks <= u32::MAX,
        c.asked == b.asked.push(((first + asks) as u64, said)),
        c.answers == if said {
            b.answers.push(
                (Answer { iters: (first + asks) as u32, sight: sights(first + asks), flow }),
            )
        } else {
            b.answers
        },
    ensures
        was_shown(a, c, first, asks + 1, sights),
        continued(a, c, said),
        said && flow == SolveFlow::Continue ==> continued(a, c, false),
        !said ==> continued(a, c, false),
{
    let (n, k) = (a.asked.len() as int, a.answers.len() as int);
    let w = wanted(b.asked, n, n + asks);
    let v = wanted(c.asked, n, n + asks + 1);
    assert(c.asked.take(b.asked.len() as int) =~= b.asked);
    lemma_wanted_prefix(b.asked, c.asked, n, n + asks);
    assert(c.asked.take(n) =~= b.asked.take(n));
    assert(c.answers.take(k) =~= b.answers.take(k));
    assert forall|j: int| 0 <= j < asks + 1 implies (#[trigger] c.asked[n + j]).0 == first + j by {
        if j < asks {
            assert(b.asked[n + j].0 == first + j);
        }
    }
    assert forall|j: int| 0 <= j < v.len() implies (#[trigger] c.answers[k + j]).iters == v[j]
        && c.answers[k + j].sight == sights(v[j]) by {
        if j < w.len() {
            assert(b.answers[k + j].iters == w[j]);
            assert(c.answers[k + j] == b.answers[k + j]);
        }
    }
    assert forall|j: int| k <= j < b.answers.len() implies (#[trigger] c.answers[j]).flow
        == SolveFlow::Continue by {
        assert(b.answers[j].flow == SolveFlow::Continue);
    }
}

/// Two solves one after the other.
pub proof fn lemma_shown_in_turn(
    a: Log,
    b: Log,
    c: Log,
    first: int,
    asks: int,
    more: int,
    sights: spec_fn(int) -> Sight,
)
    requires
        was_shown(a, b, first, asks, sights),
        continued(a, b, false),
        was_shown(b, c, first + asks, more, sights),
    ensures
        was_shown(a, c, first, asks + more, sights),
        continued(b, c, false) ==> continued(a, c, false),
        continued(b, c, true) && c.answers.len() > b.answers.len() ==> continued(a, c, true),
        forall|out: SolveOutcome, flow: SolveFlow|
            flow != SolveFlow::Continue && continued(b, c, out.interrupted()) ==> (
            #[trigger] answered(a, c, out, flow) <==> answered(b, c, out, flow)),
{
    let (n, k) = (a.asked.len() as int, a.answers.len() as int);
    let (n1, k1) = (b.asked.len() as int, b.answers.len() as int);
    let w = wanted(b.asked, n, n + asks);
    let v = wanted(c.asked, n1, n1 + more);
    let u = wanted(c.asked, n, n + asks + more);
    lemma_wanted_prefix(b.asked, c.asked, n, n + asks);
    lemma_wanted_parts(c.asked, n, n1, n1 + more);
    assert(u == w + v);
    assert(c.asked.take(n) =~= a.asked) by {
        assert(c.asked.take(n1).take(n) =~= c.asked.take(n));
    }
    assert(c.answers.take(k) =~= a.answers) by {
        assert(c.answers.take(k1).take(k) =~= c.answers.take(k));
    }
    assert forall|j: int| 0 <= j < asks + more implies (#[trigger] c.asked[n + j]).0 == first
        + j by {
        if j < asks {
            assert(b.asked[n + j].0 == first + j);
            assert(c.asked.take(n1)[n + j] == c.asked[n + j]);
        } else {
            assert(c.asked[n1 + (j - asks)].0 == first + asks + (j - asks));
        }
    }
    assert forall|j: int| 0 <= j < u.len() implies (#[trigger] c.answers[k + j]).iters == u[j]
        && c.answers[k + j].sight == sights(u[j]) by {
        if j < w.len() {
            assert(b.answers[k + j].iters == w[j]);
            assert(c.answers.take(k1)[k + j] == c.answers[k + j]);
        } else {
            assert(c.answers[k1 + (j - w.len())].iters == v[j - w.len()]);
        }
    }
    assert forall|j: int| k <= j < k1 implies (#[trigger] c.answers[j]).flow
        == SolveFlow::Continue by {
        assert(b.answers[j].flow == SolveFlow::Continue);
        assert(c.answers.take(k1)[j] == c.answers[j]);
    }
    assert forall|out: SolveOutcome, flow: SolveFlow|
        flow != SolveFlow::Continue && continued(b, c, out.interrupted()) implies (
    #[trigger] answered(a, c, out, flow) <==> answered(b, c, out, flow)) by {
        if answered(a, c, out, flow) && c.answers.len() == k1 {
            assert(c.answers[k1 - 1].flow == SolveFlow::Continue);
        }
    }
}

/// Watches nothing and never interrupts.
#[derive(Clone, Copy, Debug)]
pub struct NullObserver;

impl SolveObserver for NullObserver {
    open spec fn may_interrupt(&self) -> bool {
        false
    }

    fn due(&mut self, iters: u64) -> (r: bool)
        ensures
            !r,
    {
        false
    }

    fn boundary(&mut self, vi: &ValueIterator, iters: u32, updates: u64) -> (r: SolveFlow) {
        SolveFlow::Continue
    }
}

/// How a solve ended.
#[derive(Clone, Copy, Debug, PartialEq, Eq, Structural)]
pub struct SolveOutcome {
    /// Rounds that were carried out.
    pub iters: u32,
    /// Updates that moved a value.
    pub updates: u64,
    /// The solver ran out of work.
    pub converged: bool,
    /// The observer stopped the solver.
    pub stopped: bool,
    /// The observer cancelled the solve.
    pub cancelled: bool,
}

impl SolveOutcome {
    /// The solver came to its own end.
    pub fn running(iters: u32, updates: u64, converged: bool) -> (r: SolveOutcome)
        ensures
            r == (SolveOutcome { iters, updates, converged, stopped: false, cancelled: false }),
    {
        SolveOutcome { iters, updates, converged, stopped: false, cancelled: false }
    }

    /// The observer stopped the solver.
    pub fn stopped(iters: u32, updates: u64) -> (r: SolveOutcome)
        ensures
            r == (SolveOutcome {
                iters,
                updates,
                converged: false,
                stopped: true,
                cancelled: false,
            }),
    {
        SolveOutcome { iters, updates, converged: false, stopped: true, cancelled: false }
    }

    /// The observer cancelled the solve.
    pub fn cancelled(iters: u32, updates: u64) -> (r: SolveOutcome)
        ensures
            r == (SolveOutcome {
                iters,
                updates,
                converged: false,
                stopped: false,
                cancelled: true,
            }),
    {
        SolveOutcome { iters, updates, converged: false, stopped: false, cancelled: true }
    }

    /// The observer ended the solve.
    pub open spec fn interrupted(self) -> bool {
        self.stopped || self.cancelled
    }
}

} // verus!
