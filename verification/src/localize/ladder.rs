//! Going up and down the levels.
use vstd::prelude::*;

verus! {

/// Observations between two changes of level.
pub const MIN_DWELL: u32 = 3;

/// Where a belief stands on the levels. The first level is the fine one; on any other the
/// robot is lost.
#[derive(Clone, Copy, Debug, PartialEq, Eq, Structural)]
pub struct Ladder {
    pub levels: usize,
    pub cur: usize,
    pub initialized: bool,
    /// Observations since the last change of level.
    pub dwell: u32,
}

/// A change of level.
#[derive(Clone, Copy, Debug, PartialEq, Eq, Structural)]
pub enum Move {
    Stay,
    /// Spread the belief over the next coarser level.
    Expand(usize),
    /// Gather the belief around its best peak on the next finer level.
    Contract(usize),
}

/// What an observation starts with.
#[derive(Clone, Copy, Debug, PartialEq, Eq, Structural)]
pub enum Begin {
    Go,
    /// Nothing is known, and there is no level to start from.
    Skip,
    /// Spread the belief over all free states of this level.
    Uniform(usize),
}

impl Ladder {
    /// The belief stands on one of the levels.
    pub open spec fn wf(self) -> bool {
        self.cur < self.levels
    }

    /// A belief that nothing is known of.
    pub fn new(levels: usize) -> (r: Ladder)
        requires
            1 <= levels,
        ensures
            r.wf(),
            r == (Ladder { levels, cur: 0, initialized: false, dwell: 0 }),
    {
        Ladder { levels, cur: 0, initialized: false, dwell: 0 }
    }

    /// The robot has been told where it is.
    pub fn set_pose(&mut self)
        requires
            old(self).wf(),
        ensures
            final(self).wf(),
            *final(self) == (Ladder {
                levels: old(self).levels,
                cur: 0,
                initialized: true,
                dwell: 0,
            }),
    {
        self.cur = 0;
        self.initialized = true;
        self.dwell = 0;
    }

    /// An observation starts. A belief that nothing is known of starts on the coarsest
    /// level, unless the fine one is all there is.
    pub fn begin(&mut self) -> (r: Begin)
        requires
            old(self).wf(),
        ensures
            final(self).wf(),
            r == if old(self).initialized {
                Begin::Go
            } else if old(self).levels > 1 {
                Begin::Uniform((old(self).levels - 1) as usize)
            } else {
                Begin::Skip
            },
            *final(self) == if r is Uniform {
                Ladder {
                    levels: old(self).levels,
                    cur: (old(self).levels - 1) as usize,
                    initialized: true,
                    dwell: 0,
                }
            } else {
                *old(self)
            },
    {
        if self.initialized {
            return Begin::Go;
        }
        if self.levels > 1 {
            let last: usize = self.levels - 1;
            self.cur = last;
            self.initialized = true;
            self.dwell = 0;
            return Begin::Uniform(last);
        }
        Begin::Skip
    }

    /// Observations since the last change of level, with this one.
    pub open spec fn dwell_now(self) -> int {
        if self.dwell < u32::MAX {
            self.dwell + 1
        } else {
            u32::MAX as int
        }
    }

    /// The change of level after an observation. A belief that explains too little goes
    /// up, one that is gathered goes down.
    pub open spec fn next(self, poor: bool, tight: bool) -> Move {
        if self.dwell_now() < MIN_DWELL {
            Move::Stay
        } else if poor && self.cur + 1 < self.levels {
            Move::Expand((self.cur + 1) as usize)
        } else if self.cur > 0 && tight {
            Move::Contract((self.cur - 1) as usize)
        } else {
            Move::Stay
        }
    }

    /// Ends an observation. Going down needs a peak to gather the belief around.
    pub fn observed(&mut self, poor: bool, tight: bool, peak: bool) -> (r: Move)
        requires
            old(self).wf(),
        ensures
            final(self).wf(),
            r == if old(self).next(poor, tight) is Contract && !peak {
                Move::Stay
            } else {
                old(self).next(poor, tight)
            },
            *final(self) == match r {
                Move::Stay => Ladder { dwell: old(self).dwell_now() as u32, ..*old(self) },
                Move::Expand(to) => Ladder { cur: to, dwell: 0, ..*old(self) },
                Move::Contract(to) => Ladder { cur: to, dwell: 0, ..*old(self) },
            },
    {
        self.dwell = self.dwell.saturating_add(1);
        if self.dwell < MIN_DWELL {
            return Move::Stay;
        }
        if poor && self.cur < self.levels - 1 {
            self.cur = self.cur + 1;
            self.dwell = 0;
            Move::Expand(self.cur)
        } else if self.cur > 0 && tight {
            if !peak {
                return Move::Stay;
            }
            self.cur = self.cur - 1;
            self.dwell = 0;
            Move::Contract(self.cur)
        } else {
            Move::Stay
        }
    }

    /// Whether the belief says where the robot is.
    pub fn gives_pose(&self) -> (r: bool)
        ensures
            r == (self.initialized && self.cur == 0),
    {
        self.initialized && self.cur == 0
    }

    /// Whether the whole map is looked at for the most likely path: on the coarsest of
    /// several levels.
    pub fn on_top(&self) -> (r: bool)
        requires
            self.wf(),
        ensures
            r == (self.levels > 1 && self.cur + 1 == self.levels),
    {
        self.levels > 1 && self.cur == self.levels - 1
    }
}

/// The ladder after an observation that led to a peak.
pub open spec fn after(l: Ladder, poor: bool, tight: bool) -> Ladder {
    match l.next(poor, tight) {
        Move::Stay => Ladder { dwell: l.dwell_now() as u32, ..l },
        Move::Expand(to) => Ladder { cur: to, dwell: 0, ..l },
        Move::Contract(to) => Ladder { cur: to, dwell: 0, ..l },
    }
}

/// After a change of level, the next two observations change nothing, whatever they show;
/// and no observation changes the level by more than one.
pub proof fn law_levels_change_slowly(
    l: Ladder,
    p0: bool,
    t0: bool,
    p1: bool,
    t1: bool,
    p2: bool,
    t2: bool,
)
    requires
        l.wf(),
    ensures
        ({
            let a = after(l, p0, t0);
            let b = after(a, p1, t1);
            let c = after(b, p2, t2);
            &&& a.wf()
            &&& a.cur <= l.cur + 1 && l.cur <= a.cur + 1
            &&& a.cur != l.cur ==> b.cur == a.cur && c.cur == a.cur
        }),
{
}

/// The ladder is left alone for two observations after a change; then a poor belief goes
/// one level up while there is one, and only otherwise a tight one goes one level down while
/// there is one.
pub proof fn law_ladder_moves_by_need(l: Ladder, poor: bool, tight: bool)
    requires
        l.wf(),
    ensures
        after(l, poor, tight).levels == l.levels,
        after(l, poor, tight).initialized == l.initialized,
        l.dwell < 2 ==> after(l, poor, tight).cur == l.cur,
        l.dwell < 2 ==> after(l, poor, tight).dwell == l.dwell + 1,
        after(l, poor, tight).cur != l.cur ==> after(l, poor, tight).dwell == 0,
        l.dwell >= 2 ==> {
            &&& after(l, poor, tight).cur == l.cur + 1 <==> poor && l.cur + 1 < l.levels
            &&& after(l, poor, tight).cur == l.cur - 1 <==> l.cur > 0 && tight && !(poor && l.cur
                + 1 < l.levels)
            &&& after(l, poor, tight).cur == l.cur <==> !(poor && l.cur + 1 < l.levels) && !(l.cur
                > 0 && tight)
        },
{
}

} // verus!
