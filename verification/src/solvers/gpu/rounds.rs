//! The rounds of a solve on a graphics card.
//!
//! A round widens the cells that changed by how far actions reach, which gives the
//! candidates, and updates those. Both are kernels; what is decided between two
//! launches is here.
use vstd::prelude::*;

use crate::solvers::gpu::layout::BLOCK;

verus! {

/// What a solve does next.
#[derive(Clone, Copy, Debug, PartialEq, Eq, Structural)]
pub enum GpuStep {
    /// Widen the `changed` listed cells.
    Dilate { changed: u32 },
    /// Update all headings of the `candidates` listed cells.
    Update { candidates: u32 },
    /// Stop: no cell changed any more, or not.
    Done { converged: bool },
}

/// Where a solve stands.
#[derive(Clone, Copy, Debug, PartialEq, Eq, Structural)]
pub struct GpuRounds {
    pub rounds: u32,
    pub max_rounds: u32,
    pub next: GpuStep,
}

/// What follows when `changed` cells changed after `rounds` rounds.
pub open spec fn next_round(changed: u32, rounds: u32, max_rounds: u32) -> GpuStep {
    if changed > 0 && rounds < max_rounds {
        GpuStep::Dilate { changed }
    } else {
        GpuStep::Done { converged: changed == 0 }
    }
}

impl GpuRounds {
    /// No more rounds are started than allowed.
    pub open spec fn wf(self) -> bool {
        &&& self.rounds <= self.max_rounds
        &&& match self.next {
            GpuStep::Dilate { changed } => changed > 0 && self.rounds < self.max_rounds,
            GpuStep::Update { candidates } => candidates > 0 && 0 < self.rounds,
            GpuStep::Done { converged } => converged || self.rounds == self.max_rounds,
        }
    }

    /// A solve that starts from `changed` cells.
    pub fn new(changed: u32, max_rounds: u32) -> (r: GpuRounds)
        ensures
            r.wf(),
            r == (GpuRounds { rounds: 0, max_rounds, next: next_round(changed, 0, max_rounds) }),
    {
        GpuRounds { rounds: 0, max_rounds, next: Self::follow(changed, 0, max_rounds) }
    }

    fn follow(changed: u32, rounds: u32, max_rounds: u32) -> (r: GpuStep)
        ensures
            r == next_round(changed, rounds, max_rounds),
    {
        if changed > 0 && rounds < max_rounds {
            GpuStep::Dilate { changed }
        } else {
            GpuStep::Done { converged: changed == 0 }
        }
    }

    /// Widening gave `candidates` cells.
    pub fn dilated(&mut self, candidates: u32)
        requires
            old(self).wf(),
            old(self).next is Dilate,
        ensures
            final(self).wf(),
            *final(self) == (GpuRounds {
                rounds: (old(self).rounds + 1) as u32,
                max_rounds: old(self).max_rounds,
                next: if candidates == 0 {
                    GpuStep::Done { converged: true }
                } else {
                    GpuStep::Update { candidates }
                },
            }),
    {
        self.rounds = self.rounds + 1;
        self.next = if candidates == 0 {
            GpuStep::Done { converged: true }
        } else {
            GpuStep::Update { candidates }
        };
    }

    /// The update changed `changed` cells.
    pub fn updated(&mut self, changed: u32)
        requires
            old(self).wf(),
            old(self).next is Update,
        ensures
            final(self).wf(),
            *final(self) == (GpuRounds {
                next: next_round(changed, old(self).rounds, old(self).max_rounds),
                ..*old(self)
            }),
    {
        self.next = Self::follow(changed, self.rounds, self.max_rounds);
    }

    /// Rounds that are left, counted so that every step lowers it.
    pub open spec fn left(self) -> int {
        match self.next {
            GpuStep::Dilate { changed } => 2 * (self.max_rounds - self.rounds) + 1,
            GpuStep::Update { candidates } => 2 * (self.max_rounds - self.rounds) + 2,
            GpuStep::Done { converged } => 0,
        }
    }
}

/// Every step brings a solve closer to its end, whatever the kernels report.
pub proof fn law_rounds_end(r: GpuRounds, count: u32)
    requires
        r.wf(),
    ensures
        0 <= r.left(),
        r.next is Dilate ==> (GpuRounds {
            rounds: (r.rounds + 1) as u32,
            max_rounds: r.max_rounds,
            next: if count == 0 {
                GpuStep::Done { converged: true }
            } else {
                GpuStep::Update { candidates: count }
            },
        }).left() < r.left(),
        r.next is Update ==> (GpuRounds {
            next: next_round(count, r.rounds, r.max_rounds),
            ..r
        }).left() < r.left(),
{
}

/// Blocks that cover `n` threads.
pub fn blocks(n: u64) -> (r: u64)
    requires
        n <= u64::MAX - BLOCK,
    ensures
        n <= r * BLOCK < n + BLOCK,
{
    let q: u64 = (n + (BLOCK as u64 - 1)) / BLOCK as u64;
    q
}

/// Threads that update all headings of `candidates` cells.
pub fn update_threads(candidates: u32, nt: i32) -> (r: u64)
    requires
        0 <= nt,
    ensures
        r == candidates * nt,
{
    assert(candidates * nt <= 0xffff_ffff * 0x7fff_ffff) by (nonlinear_arith)
        requires
            0 <= candidates <= 0xffff_ffff,
            0 <= nt <= 0x7fff_ffff,
    ;
    candidates as u64 * nt as u64
}

} // verus!
