//! When a belief is lost, and when it is found again.
//!
//! An observation goes through several stages. Between them real numbers are computed and
//! compared by the caller; here is what follows from the comparisons.
use vstd::prelude::*;

verus! {

/// Observations in a row that have to show the same single peak before a belief that
/// looks for matches over the whole map is released.
pub const RELEASE_HOLD_OBS: u32 = 10;

/// Largest exponent of the evidence.
pub const LOST_EVIDENCE_POW: i32 = 8;

/// Millionths of a metre that raise the exponent of the evidence by one.
pub const MATCH_ANNEAL_UM: u64 = 500_000;

/// Settings that decide how a belief recovers.
#[derive(Clone, Copy, Debug, PartialEq, Eq, Structural)]
pub struct LatchConfig {
    /// Look for matches of a scan over the whole map in place of spreading the belief.
    pub global_match: bool,
    /// While lost, only scans after a movement count.
    pub gated: bool,
    /// Checks that a release has to pass afterwards.
    pub probation_obs: u32,
}

/// Whether a belief is lost.
#[derive(Clone, Copy, Debug, PartialEq, Eq, Structural)]
pub struct Latch {
    pub initialized: bool,
    pub lost: bool,
    /// Checks that are still to be passed.
    pub probation: u32,
    /// Observations in a row that showed the same single peak.
    pub hold: u32,
}

/// How a belief is spread again.
#[derive(Clone, Copy, Debug, PartialEq, Eq, Structural)]
pub enum Restart {
    /// To nothing: the next scan is matched with the whole map.
    Empty,
    /// To all free states.
    Uniform,
}

/// What to do about a mismatch.
#[derive(Clone, Copy, Debug, PartialEq, Eq, Structural)]
pub enum Reset {
    /// Nothing.
    Keep,
    /// Spread the belief over all free states.
    Uniform,
    /// Mix all free states into the belief.
    Mix,
    /// Match the scan with the whole map. The observation ends there.
    Reseed,
    /// Match the scan with the surroundings and with the whole map. The observation ends
    /// there.
    Rematch,
}

/// What an observation led to.
#[derive(Clone, Copy, Debug, PartialEq, Eq, Structural)]
pub enum Finding {
    /// The belief is lost. The last peak is forgotten.
    Lost,
    /// Still lost: there is no single peak.
    Blocked,
    /// Still lost: the peak is remembered.
    Holding,
    /// Found. With a single peak on the whole map it is remembered.
    Found,
    /// Found before; a check is due only after more movement, which is added up.
    Driving,
    /// Found before; a check was passed, and movement is added up anew.
    Passed,
    /// Found before; a check failed. The belief is lost, and movement is added up anew.
    Failed,
    /// Found before.
    Tracking,
}

/// What is known at the end of an observation.
#[derive(Clone, Copy, Debug, PartialEq, Eq, Structural)]
pub struct Evidence {
    /// The belief does not explain what is observed.
    pub mismatched: bool,
    /// The belief is spread too wide.
    pub wide: bool,
    /// The belief has a single peak.
    pub unimodal: bool,
    /// There is a strongest hypothesis.
    pub peak: bool,
    /// It is where the remembered one was.
    pub held: bool,
    /// The robot has moved far enough for the next check.
    pub moved: bool,
    /// The observation alone is explained too badly.
    pub poor: bool,
}

impl LatchConfig {
    /// How a belief is spread again.
    pub open spec fn restart(self) -> Restart {
        if self.global_match {
            Restart::Empty
        } else {
            Restart::Uniform
        }
    }

    fn restart_now(self) -> (r: Restart)
        ensures
            r == self.restart(),
    {
        if self.global_match {
            Restart::Empty
        } else {
            Restart::Uniform
        }
    }
}

impl Latch {
    /// Checks are only due while the belief is found, and peaks are not held too long.
    pub open spec fn wf(self) -> bool {
        &&& self.lost ==> self.probation == 0
        &&& self.hold < RELEASE_HOLD_OBS
        &&& self.lost || self.probation > 0 ==> self.initialized
    }

    /// A belief that has been spread again.
    pub open spec fn restarted(self) -> Latch {
        Latch { initialized: true, lost: true, probation: 0, hold: self.hold }
    }

    /// A belief that nothing is known of.
    pub fn new() -> (r: Latch)
        ensures
            r.wf(),
            r == (Latch { initialized: false, lost: false, probation: 0, hold: 0 }),
    {
        Latch { initialized: false, lost: false, probation: 0, hold: 0 }
    }

    /// The robot has been told where it is.
    pub fn seeded(&mut self)
        requires
            old(self).wf(),
        ensures
            final(self).wf(),
            *final(self) == (Latch {
                initialized: true,
                lost: false,
                probation: 0,
                hold: old(self).hold,
            }),
    {
        self.initialized = true;
        self.lost = false;
        self.probation = 0;
    }

    /// The belief has been spread again.
    pub fn restart(&mut self)
        requires
            old(self).wf(),
        ensures
            final(self).wf(),
            *final(self) == old(self).restarted(),
    {
        self.initialized = true;
        self.lost = true;
        self.probation = 0;
    }

    /// Whether the belief says where the robot is.
    pub fn gives_pose(&self) -> (r: bool)
        ensures
            r == (self.initialized && !self.lost),
    {
        self.initialized && !self.lost
    }

    /// Whether the release is still to be confirmed.
    pub fn in_probation(&self) -> (r: bool)
        ensures
            r == (self.probation > 0),
    {
        self.probation > 0
    }

    /// A check failed, or the caller knows better: the belief is spread again.
    pub fn fail_probation(&mut self, cfg: &LatchConfig) -> (r: Restart)
        requires
            old(self).wf(),
        ensures
            final(self).wf(),
            *final(self) == old(self).restarted(),
            r == cfg.restart(),
    {
        self.restart();
        cfg.restart_now()
    }

    /// An observation starts. A belief that nothing is known of is spread first.
    pub fn begin(&mut self, cfg: &LatchConfig) -> (r: Option<Restart>)
        requires
            old(self).wf(),
        ensures
            final(self).wf(),
            final(self).initialized,
            old(self).initialized ==> r is None && *final(self) == *old(self),
            !old(self).initialized ==> r == Some(cfg.restart()) && *final(self) == old(
                self,
            ).restarted(),
    {
        if self.initialized {
            return None;
        }
        self.restart();
        Some(cfg.restart_now())
    }

    /// Whether the scan is not looked at: the belief is lost, and the robot has hardly
    /// moved since the last one.
    pub fn skips(&self, cfg: &LatchConfig, still: bool) -> (r: bool)
        ensures
            r == (self.lost && cfg.gated && still),
    {
        self.lost && cfg.gated && still
    }

    /// The movement has been applied. Where no hypothesis is left, the belief is spread
    /// over all free states, unless scans are matched with the whole map.
    pub fn flushed(&mut self, cfg: &LatchConfig, empty: bool) -> (r: bool)
        requires
            old(self).wf(),
        ensures
            final(self).wf(),
            r == (empty && !cfg.global_match),
            *final(self) == if r {
                old(self).restarted()
            } else {
                *old(self)
            },
    {
        if empty && !cfg.global_match {
            self.restart();
            return true;
        }
        false
    }

    /// The beams have been collected: whether the observation goes on, and whether the
    /// scan is to be matched with the whole map because no hypothesis is left.
    pub fn collected(&mut self, cfg: &LatchConfig, no_beams: bool, empty: bool) -> (r: (bool, bool))
        requires
            old(self).wf(),
        ensures
            final(self).wf(),
            r.0 == (!no_beams && !empty),
            r.1 == (!no_beams && empty && cfg.global_match),
            *final(self) == if r.1 {
                old(self).restarted()
            } else {
                *old(self)
            },
    {
        if no_beams {
            return (false, false);
        }
        if empty {
            if cfg.global_match {
                self.restart();
                return (false, true);
            }
            return (false, false);
        }
        (true, false)
    }

    /// The hypotheses have been weighed. Where none is left, the belief is spread again;
    /// the observation ends there.
    pub fn weighed(&mut self, cfg: &LatchConfig, empty: bool) -> (r: Option<Restart>)
        requires
            old(self).wf(),
        ensures
            final(self).wf(),
            r == if empty {
                Some(cfg.restart())
            } else {
                None
            },
            *final(self) == if empty {
                old(self).restarted()
            } else {
                *old(self)
            },
    {
        if empty {
            self.restart();
            return Some(cfg.restart_now());
        }
        None
    }

    /// What to do about a mismatch. A lost belief that is still wide is left alone, and so
    /// is one that looks for matches until the robot has moved on.
    pub open spec fn reset(self, cfg: LatchConfig, mismatched: bool, wide: bool, far: bool) -> Reset {
        if !mismatched || self.lost && wide {
            Reset::Keep
        } else if cfg.global_match {
            if !far {
                Reset::Keep
            } else if self.lost {
                Reset::Reseed
            } else {
                Reset::Rematch
            }
        } else if self.lost {
            Reset::Uniform
        } else {
            Reset::Mix
        }
    }

    /// Reacts to a mismatch; `far` says whether the robot has moved far since the last
    /// match.
    pub fn mismatch(&mut self, cfg: &LatchConfig, mismatched: bool, wide: bool, far: bool) -> (r:
        Reset)
        requires
            old(self).wf(),
        ensures
            final(self).wf(),
            r == old(self).reset(*cfg, mismatched, wide, far),
            *final(self) == match r {
                Reset::Keep => *old(self),
                Reset::Mix => *old(self),
                _ => Latch { initialized: true, ..old(self).restarted() },
            },
    {
        if !mismatched || self.lost && wide {
            return Reset::Keep;
        }
        if cfg.global_match {
            if !far {
                return Reset::Keep;
            }
            let r: Reset = if self.lost {
                Reset::Reseed
            } else {
                Reset::Rematch
            };
            self.restart();
            r
        } else if self.lost {
            self.restart();
            Reset::Uniform
        } else {
            Reset::Mix
        }
    }

    /// How often in a row the peak has been seen, with this observation.
    pub open spec fn holds_now(self, e: Evidence) -> int {
        if e.held {
            self.hold + 1
        } else {
            1
        }
    }

    /// What an observation leads to.
    pub open spec fn finding(self, cfg: LatchConfig, e: Evidence) -> Finding {
        if e.mismatched || e.wide {
            Finding::Lost
        } else if self.lost {
            if !e.unimodal || cfg.global_match && !e.peak {
                Finding::Blocked
            } else if cfg.global_match && self.holds_now(e) < RELEASE_HOLD_OBS {
                Finding::Holding
            } else {
                Finding::Found
            }
        } else if self.probation == 0 {
            Finding::Tracking
        } else if !e.moved {
            Finding::Driving
        } else if e.poor {
            Finding::Failed
        } else {
            Finding::Passed
        }
    }

    /// The latch after an observation.
    pub open spec fn after(self, cfg: LatchConfig, e: Evidence) -> Latch {
        match self.finding(cfg, e) {
            Finding::Lost => Latch {
                initialized: self.initialized,
                lost: true,
                probation: 0,
                hold: 0,
            },
            Finding::Blocked => Latch { hold: 0, ..self },
            Finding::Holding => Latch { hold: self.holds_now(e) as u32, ..self },
            Finding::Found => Latch {
                initialized: self.initialized,
                lost: false,
                probation: cfg.probation_obs,
                hold: if cfg.global_match {
                    0
                } else {
                    self.hold
                },
            },
            Finding::Driving => self,
            Finding::Passed => Latch { probation: (self.probation - 1) as u32, ..self },
            Finding::Failed => self.restarted(),
            Finding::Tracking => self,
        }
    }

    /// Ends an observation.
    pub fn conclude(&mut self, cfg: &LatchConfig, e: &Evidence) -> (r: Finding)
        requires
            old(self).wf(),
            old(self).initialized,
        ensures
            final(self).wf(),
            r == old(self).finding(*cfg, *e),
            *final(self) == old(self).after(*cfg, *e),
    {
        if e.mismatched || e.wide {
            self.lost = true;
            self.probation = 0;
            self.hold = 0;
            return Finding::Lost;
        }
        if self.lost {
            if !e.unimodal {
                self.hold = 0;
                return Finding::Blocked;
            }
            if cfg.global_match {
                if !e.peak {
                    self.hold = 0;
                    return Finding::Blocked;
                }
                self.hold = if e.held {
                    self.hold + 1
                } else {
                    1
                };
                if self.hold < RELEASE_HOLD_OBS {
                    return Finding::Holding;
                }
                self.hold = 0;
            }
            self.lost = false;
            self.probation = cfg.probation_obs;
            return Finding::Found;
        }
        if self.probation == 0 {
            return Finding::Tracking;
        }
        if !e.moved {
            return Finding::Driving;
        }
        if e.poor {
            self.restart();
            Finding::Failed
        } else {
            self.probation = self.probation - 1;
            Finding::Passed
        }
    }

    /// The level of certainty among `nb` levels: the last one while the belief is lost,
    /// otherwise `bin`, cut off at both ends.
    pub fn b_hat(&self, nb: i32, bin: i32) -> (r: i32)
        requires
            self.lost || 1 <= nb,
            i32::MIN < nb,
        ensures
            r == if self.lost {
                if nb - 1 > 0 {
                    nb - 1
                } else {
                    0
                }
            } else if bin < 0 {
                0
            } else if bin > nb - 1 {
                nb - 1
            } else {
                bin as int
            },
    {
        if self.lost {
            return if nb - 1 > 0 {
                nb - 1
            } else {
                0
            };
        }
        if bin < 0 {
            0
        } else if bin > nb - 1 {
            nb - 1
        } else {
            bin
        }
    }
}

/// A lost belief is only found again with a single peak and a matching observation; and
/// where scans are matched with the whole map, only after the peak has stayed.
pub proof fn law_release_needs_a_single_peak(l: Latch, cfg: LatchConfig, e: Evidence)
    requires
        l.wf(),
        l.lost,
        !l.after(cfg, e).lost,
    ensures
        e.unimodal && !e.mismatched && !e.wide,
        cfg.global_match ==> e.peak && l.holds_now(e) >= RELEASE_HOLD_OBS,
        l.after(cfg, e).probation == cfg.probation_obs,
{
}

/// After a mismatch, or with a belief that is spread too wide, the belief is lost.
pub proof fn law_mismatch_means_lost(l: Latch, cfg: LatchConfig, e: Evidence)
    requires
        l.wf(),
        e.mismatched || e.wide,
    ensures
        l.after(cfg, e).lost,
{
}

/// The latch after a run of observations.
pub open spec fn after_all(l: Latch, cfg: LatchConfig, es: Seq<Evidence>, n: int) -> Latch
    decreases n,
{
    if n <= 0 {
        l
    } else {
        after_all(l, cfg, es, n - 1).after(cfg, es[n - 1])
    }
}

/// Checks among the first `n` observations that were passed.
pub open spec fn checks(es: Seq<Evidence>, n: int) -> int
    decreases n,
{
    if n <= 0 {
        0
    } else {
        checks(es, n - 1) + if es[n - 1].moved {
            1int
        } else {
            0int
        }
    }
}

/// A release is confirmed after exactly as many good checks as were asked for: until then
/// it counts as provisional, and after that no more.
pub proof fn law_probation_counts_checks(l: Latch, cfg: LatchConfig, es: Seq<Evidence>, n: int)
    requires
        l.wf(),
        !l.lost,
        0 <= n <= es.len(),
        forall|k: int|
            0 <= k < n ==> !(#[trigger] es[k]).mismatched && !es[k].wide && !es[k].poor,
    ensures
        !after_all(l, cfg, es, n).lost,
        after_all(l, cfg, es, n).probation == if checks(es, n) < l.probation {
            l.probation - checks(es, n)
        } else {
            0
        },
    decreases n,
{
    if n > 0 {
        law_probation_counts_checks(l, cfg, es, n - 1);
        assert(!es[n - 1].mismatched);
    }
}

/// Every how many beams one is used: all the more seldom while the belief is lost and
/// spread over the map.
pub fn beam_stride(step: usize, lost: bool, cfg: &LatchConfig) -> (r: usize)
    requires
        4 * step <= usize::MAX,
    ensures
        r == (if step < 1 {
            1
        } else {
            step as int
        }) * (if lost && !cfg.global_match {
            4int
        } else {
            1int
        }),
        1 <= r,
{
    let s: usize = if step < 1 {
        1
    } else {
        step
    };
    if lost && !cfg.global_match {
        s * 4
    } else {
        s
    }
}

/// Those of the first `n` beams, every `stride`-th, that can be used.
pub open spec fn used_beams(valid: Seq<bool>, stride: int, n: int) -> Seq<usize>
    decreases n,
{
    if n <= 0 {
        Seq::empty()
    } else {
        let p = used_beams(valid, stride, n - 1);
        if (n - 1) % stride == 0 && valid[n - 1] {
            p.push((n - 1) as usize)
        } else {
            p
        }
    }
}

/// The beams that are used.
pub fn pick_beams(valid: &Vec<bool>, stride: usize) -> (r: Vec<usize>)
    requires
        1 <= stride,
    ensures
        r@ == used_beams(valid@, stride as int, valid@.len() as int),
{
    let mut out: Vec<usize> = Vec::new();
    let mut i: usize = 0;
    while i < valid.len()
        invariant
            1 <= stride,
            i <= valid@.len(),
            out@ == used_beams(valid@, stride as int, i as int),
        decreases valid.len() - i,
    {
        if i % stride == 0 && valid[i] {
            out.push(i);
        }
        i += 1;
    }
    out
}

/// Whether the best match of the surroundings is taken: it has to score half as much as
/// the best match of the whole map.
pub fn takes_local(local: u32, global: u32) -> (r: bool)
    ensures
        r == (local > 0 && 2 * local >= global),
{
    local > 0 && 2 * local as u64 >= global as u64
}

/// Exponent of the evidence after a movement of `moved` millionths of a metre since the
/// last match: it starts soft and hardens.
pub fn anneal_pow(moved: u64) -> (r: i32)
    ensures
        r == if 1 + moved as int / MATCH_ANNEAL_UM as int > LOST_EVIDENCE_POW {
            LOST_EVIDENCE_POW as int
        } else {
            1 + moved as int / MATCH_ANNEAL_UM as int
        },
        1 <= r <= 8,
        (r - 1) * 500_000 <= moved,
        r < 8 ==> moved < r * 500_000,
{
    let k: u64 = moved / MATCH_ANNEAL_UM;
    if k >= LOST_EVIDENCE_POW as u64 {
        LOST_EVIDENCE_POW
    } else {
        1 + k as i32
    }
}

/// While the belief is lost and the whole map is searched, each observation that shows the
/// remembered peak alone is counted, and the tenth in a row releases the belief.
pub proof fn law_tenth_hold_releases(l: Latch, cfg: LatchConfig, es: Seq<Evidence>, n: int)
    requires
        l.wf(),
        l.lost,
        cfg.global_match,
        0 <= n <= es.len(),
        l.hold + n <= 10,
        forall|k: int|
            0 <= k < n ==> {
                let e = #[trigger] es[k];
                !e.mismatched && !e.wide && e.unimodal && e.peak && e.held
            },
    ensures
        l.hold + n < 10 ==> after_all(l, cfg, es, n) == (Latch { hold: (l.hold + n) as u32, ..l }),
        l.hold + n == 10 && n > 0 ==> !after_all(l, cfg, es, n).lost && after_all(
            l,
            cfg,
            es,
            n,
        ).probation == cfg.probation_obs && after_all(l, cfg, es, n).hold == 0,
    decreases n,
{
    if n > 0 {
        law_tenth_hold_releases(l, cfg, es, n - 1);
        let e = es[n - 1];
    }
}

/// A peak elsewhere starts the count anew, at one, and an observation without a single peak
/// starts it at nothing. Without a search of the whole map a single peak releases at once.
pub proof fn law_other_peaks_start_anew(l: Latch, cfg: LatchConfig, e: Evidence)
    requires
        l.wf(),
        l.lost,
        !e.mismatched,
        !e.wide,
    ensures
        cfg.global_match && e.unimodal && e.peak && !e.held ==> l.after(cfg, e) == (Latch {
            hold: 1,
            ..l
        }),
        !e.unimodal ==> l.after(cfg, e) == (Latch { hold: 0, ..l }),
        cfg.global_match && !e.peak ==> l.after(cfg, e) == (Latch { hold: 0, ..l }),
        !cfg.global_match && e.unimodal ==> !l.after(cfg, e).lost,
{
}

/// A belief that is not lost stays so unless the observation mismatches it, is spread too
/// wide, or fails a check that was due; checks are due only in probation, after movement.
pub proof fn law_belief_is_lost_only_for_a_reason(l: Latch, cfg: LatchConfig, e: Evidence)
    requires
        l.wf(),
        !l.lost,
    ensures
        l.after(cfg, e).lost <==> e.mismatched || e.wide || (l.probation > 0 && e.moved && e.poor),
        l.after(cfg, e).initialized == (l.initialized || l.finding(cfg, e) is Failed),
        l.finding(cfg, e) is Passed <==> !e.mismatched && !e.wide && l.probation > 0 && e.moved
            && !e.poor,
{
}

/// A belief is reset only where it mismatches, never while it is lost and still wide. A
/// search of the whole map needs movement; without one all free states come back, in place
/// of the belief if it is lost and beside it otherwise.
pub proof fn law_reset_needs_a_mismatch(
    l: Latch,
    cfg: LatchConfig,
    mismatched: bool,
    wide: bool,
    far: bool,
)
    ensures
        ({
            let r = l.reset(cfg, mismatched, wide, far);
            let due = mismatched && !(l.lost && wide);
            &&& r is Keep <==> !due || (cfg.global_match && !far)
            &&& r is Reseed <==> due && cfg.global_match && far && l.lost
            &&& r is Rematch <==> due && cfg.global_match && far && !l.lost
            &&& r is Uniform <==> due && !cfg.global_match && l.lost
            &&& r is Mix <==> due && !cfg.global_match && !l.lost
        }),
{
}

/// The beams that are used are exactly the valid ones at multiples of the stride, in order.
pub proof fn law_every_stride_uses_a_beam(valid: Seq<bool>, stride: int, n: int)
    requires
        1 <= stride,
        0 <= n <= valid.len() <= usize::MAX,
    ensures
        forall|i: int, j: int|
            0 <= i < j < used_beams(valid, stride, n).len() ==> #[trigger] used_beams(
                valid,
                stride,
                n,
            )[i] < #[trigger] used_beams(valid, stride, n)[j],
        forall|i: int|
            0 <= i < used_beams(valid, stride, n).len() ==> {
                let b = #[trigger] used_beams(valid, stride, n)[i] as int;
                b < n && valid[b] && b % stride == 0
            },
        forall|b: int|
            #![trigger valid[b]]
            0 <= b < n && valid[b] && b % stride == 0 ==> used_beams(valid, stride, n).contains(
                b as usize,
            ),
    decreases n,
{
    if n > 0 {
        law_every_stride_uses_a_beam(valid, stride, n - 1);
        let p = used_beams(valid, stride, n - 1);
        let l = used_beams(valid, stride, n);
        assert forall|b: int|
            #![trigger valid[b]]
            0 <= b < n && valid[b] && b % stride == 0 implies l.contains(b as usize) by {
            if b < n - 1 {
                let k = choose|k: int| 0 <= k < p.len() && p[k] == b as usize;
                assert(l[k] == b as usize);
            } else {
                assert(l[p.len() as int] == b as usize);
            }
        }
    }
}

} // verus!
