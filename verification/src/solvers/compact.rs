//! Solving into a compact field: values and actions only.
use vstd::prelude::*;

use crate::planner::{kept, RamSink};
use crate::solvers::frontier2d::{frontier2d_solve_observed, seeded, solved, watched};
use crate::solvers::observe::{log_of, SolveObserver, SolveOutcome};
use crate::state::State;
use crate::value_iterator::ValueIterator;

verus! {

/// Solves the field and keeps what a planner needs of it. A solve that is cancelled, at
/// its start or by the observer, leaves the compact field as it was.
pub fn solve_compact_mapped<O: SolveObserver>(
    vi: &mut ValueIterator,
    max_iter: u32,
    sink: &mut RamSink,
    cancel: bool,
    obs: &mut O,
) -> (out: SolveOutcome)
    requires
        old(vi).wf(),
        old(vi).actions@.len() <= i32::MAX,
    ensures
        final(vi).wf(),
        final(vi).has_states(*old(vi), final(vi).states@),
        cancel ==> {
            &&& out == (SolveOutcome {
                iters: 0,
                updates: 0,
                converged: false,
                stopped: false,
                cancelled: true,
            })
            &&& final(vi).states@ == old(vi).states@
        },
        !cancel ==> solved(
            old(vi).model(),
            seeded(old(vi).model(), old(vi).states@),
            0,
            max_iter as int,
            out,
            final(vi).states@,
        ),
        cancel ==> *final(obs) == *old(obs),
        !cancel && !old(obs).may_interrupt() ==> !out.interrupted(),
        !cancel && old(obs).may_interrupt() ==> watched(
            old(vi).model(),
            seeded(old(vi).model(), old(vi).states@),
            0,
            out,
            log_of(*old(obs)),
            log_of(*final(obs)),
        ),
        final(sink).cells@ == if out.cancelled {
            old(sink).cells@
        } else {
            final(vi).states@.map_values(|s: State| kept(s))
        },
{
    if cancel {
        return SolveOutcome::cancelled(0, 0);
    }
    let out: SolveOutcome = frontier2d_solve_observed(vi, max_iter, obs);
    if !out.cancelled {
        sink.store(vi);
    }
    out
}

} // verus!
