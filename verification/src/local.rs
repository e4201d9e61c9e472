//! The local window: a part of the map around the robot that is swept again and again
//! while the robot drives, with costs from what its laser sees.
use vstd::arithmetic::power2::pow2;
use vstd::prelude::*;

use crate::chamfer::{abs, distances, is_distance, octile};
use crate::grid::{lemma_cell_bound, lemma_index_bound, on_axis};
use crate::model::{Grid, Model};
use crate::params::{PROB_BASE, PROB_BASE_BIT};
pub use crate::shape::{LocalShape, LocalShapeConfig};
use crate::shape::{Footprint, LENGTH_MAX, PLACE_MAX, RES_MAX};
use crate::solvers::frontier2d::cell_pass;
use crate::state::State;
use crate::transition::{floor_div, UNIT};
use crate::value_iterator::{value_iteration_raw, ValueIterator};

verus! {

/// Cost of standing where the laser saw an obstacle, in steps.
pub const LASER_STEPS: u64 = 2048;

/// Most halvings of that cost.
pub const MAX_SHIFT: u32 = 11;

/// A planning problem with a local window.
pub struct ValueIteratorLocal {
    pub base: ValueIterator,
    pub local_ix_min: i32,
    pub local_ix_max: i32,
    pub local_iy_min: i32,
    pub local_iy_max: i32,
    /// Half the larger side of the window's bounding box, in cells.
    pub local_ixy_range: i32,
    /// Width of a cell, in millionths of a metre.
    pub res: i64,
    /// The shape of the window.
    pub footprint: Footprint,
    /// Distance of every cell to the nearest obstacle, once it is known.
    pub obstacle_dist: Vec<u16>,
}

impl ValueIteratorLocal {
    /// The window lies on the map.
    pub open spec fn window_ok(self) -> bool {
        &&& 0 <= self.local_ix_min
        &&& self.local_ix_max < self.base.cell_num_x
        &&& 0 <= self.local_iy_min
        &&& self.local_iy_max < self.base.cell_num_y
        &&& self.shaped()
    }

    /// The shape can be computed with.
    pub open spec fn shaped(self) -> bool {
        &&& self.footprint.wf()
        &&& 0 < self.res <= RES_MAX
    }

    /// The problem is well formed and the window lies on the map.
    pub open spec fn wf(self) -> bool {
        self.base.wf() && self.window_ok()
    }

    /// The cell `(ix, iy)` belongs to the window.
    pub open spec fn covers(self, ix: int, iy: int) -> bool {
        &&& self.local_ix_min <= ix <= self.local_ix_max
        &&& self.local_iy_min <= iy <= self.local_iy_max
        &&& self.footprint.contains(ix, iy, self.res as int)
    }

    /// Nothing but the values, penalties and freedom of states differs.
    pub open spec fn same_window(self, other: ValueIteratorLocal) -> bool {
        &&& self.base.has_states(other.base, self.base.states@)
        &&& self.local_ix_min == other.local_ix_min
        &&& self.local_ix_max == other.local_ix_max
        &&& self.local_iy_min == other.local_iy_min
        &&& self.local_iy_max == other.local_iy_max
        &&& self.local_ixy_range == other.local_ixy_range
        &&& self.res == other.res
        &&& self.footprint == other.footprint
        &&& self.obstacle_dist@ == other.obstacle_dist@
    }

    /// The window is the usual one, not yet placed: a square that reaches one metre to every
    /// side.
    pub open spec fn starts(self) -> bool {
        let n = 1_000_000int / self.res as int;
        &&& self.footprint == (Footprint {
            cfg: LocalShapeConfig {
                shape: LocalShape::Square,
                range: 1_000_000,
                lat: 0,
                ratio_max: 1_000_000,
                slew: 0,
                fw_ref: 0,
            },
            a_fwd: 1_000_000,
            a_bwd: 1_000_000,
            x: 0,
            y: 0,
            cos: UNIT,
            sin: 0,
            placed: false,
        })
        &&& self.local_ixy_range == n
        &&& self.local_ix_min == 0
        &&& self.local_iy_min == 0
        &&& self.local_ix_max == 2 * n
        &&& self.local_iy_max == 2 * n
        &&& self.obstacle_dist@.len() == 0
    }

    /// A problem with the usual window, where cells are `res` millionths of a metre wide.
    pub fn new(base: ValueIterator, res: i64) -> (r: ValueIteratorLocal)
        requires
            0 < res <= RES_MAX,
        ensures
            r.shaped(),
            r.base == base,
            r.res == res,
            r.starts(),
    {
        let mut l = ValueIteratorLocal {
            base,
            local_ix_min: 0,
            local_ix_max: 0,
            local_iy_min: 0,
            local_iy_max: 0,
            local_ixy_range: 0,
            res,
            footprint: Footprint::new(LocalShapeConfig::default()),
            obstacle_dist: Vec::new(),
        };
        l.start();
        l
    }

    fn start(&mut self)
        requires
            old(self).shaped(),
        ensures
            final(self).shaped(),
            final(self).base == old(self).base,
            final(self).res == old(self).res,
            final(self).starts(),
    {
        proof {
            let res = self.res as int;
            vstd::arithmetic::div_mod::lemma_div_is_ordered_by_denominator(1_000_000, 1, res);
        }
        self.set_local_shape(LocalShapeConfig::default());
        self.obstacle_dist = Vec::new();
    }

    /// Takes another map over, with cells that are `res` millionths of a metre wide. The
    /// window becomes the usual one again, and what was known of distances is forgotten.
    pub fn set_map_with_occupancy_grid(&mut self, base: ValueIterator, res: i64)
        requires
            old(self).shaped(),
            0 < res <= RES_MAX,
        ensures
            final(self).shaped(),
            final(self).base == base,
            final(self).res == res,
            final(self).starts(),
    {
        self.base = base;
        self.res = res;
        self.start();
    }

    /// Sets a square window that reaches `range` millionths of a metre to every side.
    pub fn set_local_xy_range(&mut self, range: i64)
        requires
            old(self).shaped(),
            0 <= range <= LENGTH_MAX,
        ensures
            final(self).shaped(),
            final(self).base == old(self).base,
            final(self).res == old(self).res,
            final(self).obstacle_dist == old(self).obstacle_dist,
            final(self).footprint.cfg == (LocalShapeConfig {
                shape: LocalShape::Square,
                range,
                lat: 0,
                ratio_max: 1_000_000,
                slew: 0,
                fw_ref: 0,
            }),
            final(self).local_ixy_range == range as int / old(self).res as int,
            final(self).local_ix_min == 0 && final(self).local_iy_min == 0,
            final(self).local_ix_max == 2 * (range as int / old(self).res as int),
            final(self).local_iy_max == 2 * (range as int / old(self).res as int),
    {
        proof {
            let res = self.res as int;
            vstd::arithmetic::div_mod::lemma_div_is_ordered_by_denominator(range as int, 1, res);
        }
        self.set_local_shape(LocalShapeConfig { range, ..LocalShapeConfig::default() })
    }

    /// Sets the shape of the window. It has to be placed before it can be used.
    pub fn set_local_shape(&mut self, cfg: LocalShapeConfig)
        requires
            old(self).shaped(),
            cfg.wf(),
            2 * cfg.radii(old(self).res as int).0 <= i32::MAX,
            2 * cfg.radii(old(self).res as int).1 <= i32::MAX,
        ensures
            final(self).shaped(),
            final(self).base == old(self).base,
            final(self).res == old(self).res,
            final(self).obstacle_dist == old(self).obstacle_dist,
            final(self).footprint == (Footprint {
                cfg,
                a_fwd: cfg.range,
                a_bwd: cfg.range,
                x: 0,
                y: 0,
                cos: UNIT,
                sin: 0,
                placed: false,
            }),
            ({
                let (rx, ry) = cfg.radii(old(self).res as int);
                &&& final(self).local_ixy_range == if rx > ry {
                    rx
                } else {
                    ry
                }
                &&& final(self).local_ix_min == 0
                &&& final(self).local_iy_min == 0
                &&& final(self).local_ix_max == 2 * rx
                &&& final(self).local_iy_max == 2 * ry
            }),
    {
        let (rx, ry) = cfg.radii_cells(self.res);
        self.footprint = Footprint::new(cfg);
        self.local_ixy_range = if rx > ry {
            rx
        } else {
            ry
        };
        self.local_ix_min = 0;
        self.local_iy_min = 0;
        self.local_ix_max = rx * 2;
        self.local_iy_max = ry * 2;
    }

    /// Moves the window with the robot to `(x, y)`, from the corner of the map, turned to
    /// the given heading, and cuts it off at the border of the map.
    pub fn set_local_window(&mut self, x: i64, y: i64, cos: i64, sin: i64)
        requires
            old(self).base.wf(),
            old(self).shaped(),
            -PLACE_MAX <= x <= PLACE_MAX,
            -PLACE_MAX <= y <= PLACE_MAX,
            -UNIT <= cos <= UNIT,
            -UNIT <= sin <= UNIT,
            ({
                let res = old(self).res as int;
                let (rx, ry) = old(self).footprint.cfg.radii(res);
                &&& i32::MIN <= x as int / res - rx && x as int / res + rx <= i32::MAX
                &&& i32::MIN <= y as int / res - ry && y as int / res + ry <= i32::MAX
            }),
        ensures
            final(self).wf(),
            final(self).base == old(self).base,
            final(self).res == old(self).res,
            final(self).local_ixy_range == old(self).local_ixy_range,
            final(self).obstacle_dist == old(self).obstacle_dist,
            ({
                let res = old(self).res as int;
                let fwd = old(self).footprint.fwd_after(
                    x as int,
                    y as int,
                    cos as int,
                    sin as int,
                    res,
                );
                final(self).footprint == (Footprint {
                    cfg: old(self).footprint.cfg,
                    a_fwd: fwd as i64,
                    a_bwd: (2 * old(self).footprint.cfg.range - fwd) as i64,
                    x,
                    y,
                    cos,
                    sin,
                    placed: true,
                })
            }),
            ({
                let res = old(self).res as int;
                let (rx, ry) = old(self).footprint.cfg.radii(res);
                let (ix, iy) = (x as int / res, y as int / res);
                &&& final(self).local_ix_min == if ix - rx >= 0 {
                    ix - rx
                } else {
                    0
                }
                &&& final(self).local_iy_min == if iy - ry >= 0 {
                    iy - ry
                } else {
                    0
                }
                &&& final(self).local_ix_max == if ix + rx < old(self).base.cell_num_x {
                    ix + rx
                } else {
                    old(self).base.cell_num_x - 1
                }
                &&& final(self).local_iy_max == if iy + ry < old(self).base.cell_num_y {
                    iy + ry
                } else {
                    old(self).base.cell_num_y - 1
                }
            }),
            ({
                let (ix, iy) = (x as int / old(self).res as int, y as int / old(self).res as int);
                &&& on_axis(ix, old(self).base.cell_num_x as int) ==> final(self).local_ix_min <= ix
                    <= final(self).local_ix_max
                &&& on_axis(iy, old(self).base.cell_num_y as int) ==> final(self).local_iy_min <= iy
                    <= final(self).local_iy_max
            }),
    {
        proof {
            lemma_radii(self.footprint.cfg, self.res as int);
        }
        self.footprint.place(x, y, cos, sin, self.res);
        let (rx, ry) = self.footprint.cfg.radii_cells(self.res);
        let ix: i32 = floor_div(x as i128, self.res as i128) as i32;
        let iy: i32 = floor_div(y as i128, self.res as i128) as i32;
        self.local_ix_min = if ix - rx >= 0 {
            ix - rx
        } else {
            0
        };
        self.local_iy_min = if iy - ry >= 0 {
            iy - ry
        } else {
            0
        };
        self.local_ix_max = if ix + rx < self.base.cell_num_x {
            ix + rx
        } else {
            self.base.cell_num_x - 1
        };
        self.local_iy_max = if iy + ry < self.base.cell_num_y {
            iy + ry
        } else {
            self.base.cell_num_y - 1
        };
    }

    /// Whether the cell `(ix, iy)` belongs to the window.
    pub fn in_local_area(&self, ix: i32, iy: i32) -> (r: bool)
        requires
            self.shaped(),
        ensures
            r == self.covers(ix as int, iy as int),
    {
        if ix < self.local_ix_min || ix > self.local_ix_max || iy < self.local_iy_min || iy
            > self.local_iy_max {
            return false;
        }
        self.footprint.covers(ix, iy, self.res)
    }

    /// Updates the state number `idx`.
    pub fn value_iteration_local(&mut self, idx: usize) -> (r: u64)
        requires
            old(self).wf(),
            idx < old(self).base.states@.len(),
        ensures
            final(self).wf(),
            final(self).same_window(*old(self)),
            final(self).base.states@ == old(self).base.model().upd(
                old(self).base.states@,
                idx as int,
            ),
            r == old(self).base.model().delta(old(self).base.states@, idx as int),
    {
        value_iteration_raw(
            &mut self.base.states,
            &self.base.actions,
            idx,
            self.base.cell_num_x,
            self.base.cell_num_y,
            self.base.cell_num_t,
        )
    }
}

/// The bounding box of a shape has no negative size.
proof fn lemma_radii(c: LocalShapeConfig, res: int)
    requires
        c.wf(),
        0 < res,
    ensures
        0 <= c.radii(res).0,
        0 <= c.radii(res).1,
{
    crate::shape::lemma_axis_bounds(c);
    vstd::arithmetic::div_mod::lemma_div_pos_is_pos(c.range * c.ratio(), 1_000_000);
    vstd::arithmetic::div_mod::lemma_div_pos_is_pos(c.range as int, res);
    vstd::arithmetic::div_mod::lemma_div_pos_is_pos(c.side(), res);
    vstd::arithmetic::div_mod::lemma_div_pos_is_pos(
        crate::shape::most(c.range * c.ratio() / 1_000_000, c.side()),
        res,
    );
}

/// The states after the cells of column `x` from `lo` up to `y` have been updated, those
/// that belong to the window.
pub open spec fn column_pass(
    l: ValueIteratorLocal,
    s: Seq<State>,
    x: int,
    lo: int,
    y: int,
) -> Seq<State>
    decreases y - lo,
{
    if y <= lo {
        s
    } else {
        let p = column_pass(l, s, x, lo, y - 1);
        if l.covers(x, y - 1) {
            cell_pass(
                l.base.model(),
                p,
                (y - 1) * l.base.cell_num_x + x,
                l.base.cell_num_t as int,
            )
        } else {
            p
        }
    }
}

/// The states after the columns from `lo` up to `x` have been updated.
pub open spec fn window_pass(
    l: ValueIteratorLocal,
    s: Seq<State>,
    lo: int,
    x: int,
) -> Seq<State>
    decreases x - lo,
{
    if x <= lo {
        s
    } else {
        column_pass(
            l,
            window_pass(l, s, lo, x - 1),
            x - 1,
            l.local_iy_min as int,
            l.local_iy_max + 1,
        )
    }
}

/// Index of a heading of a cell.
proof fn lemma_heading_index(g: Grid, x: int, y: int, t: int)
    requires
        g.wf(),
        on_axis(x, g.nx),
        on_axis(y, g.ny),
        on_axis(t, g.nt),
    ensures
        g.at(x, y, t) == (y * g.nx + x) * g.nt + t,
        0 <= g.at(x, y, t) < g.len(),
        0 <= y * g.nx + x < g.nx * g.ny,
{
    lemma_index_bound(x, y, t, g.nx, g.ny, g.nt);
    lemma_cell_bound(x, y, g.nx, g.ny);
}

/// Updating a cell leaves all other states.
proof fn lemma_cell_pass_frame(m: Model, s: Seq<State>, c: int, k: int, i: int)
    requires
        0 <= i < s.len(),
        0 <= c * m.grid.nt,
        c * m.grid.nt + m.grid.nt <= s.len(),
        k <= m.grid.nt,
        i < c * m.grid.nt || c * m.grid.nt + m.grid.nt <= i,
    ensures
        cell_pass(m, s, c, k).len() == s.len(),
        cell_pass(m, s, c, k)[i] == s[i],
    decreases k,
{
    if k > 0 {
        lemma_cell_pass_frame(m, s, c, k - 1, i);
    }
}

proof fn lemma_column_frame(
    l: ValueIteratorLocal,
    s: Seq<State>,
    x: int,
    lo: int,
    y: int,
    i: int,
    u: int,
    v: int,
    t: int,
)
    requires
        l.wf(),
        0 <= i < s.len(),
        s.len() == l.base.grid().len(),
        on_axis(u, l.base.grid().nx),
        on_axis(v, l.base.grid().ny),
        on_axis(t, l.base.grid().nt),
        i == l.base.grid().at(u, v, t),
        !l.covers(u, v),
    ensures
        column_pass(l, s, x, lo, y).len() == s.len(),
        column_pass(l, s, x, lo, y)[i] == s[i],
    decreases y - lo,
{
    if y > lo {
        lemma_column_frame(l, s, x, lo, y - 1, i, u, v, t);
        if l.covers(x, y - 1) {
            let g = l.base.grid();
            lemma_heading_index(g, u, v, t);
            lemma_heading_index(g, x, y - 1, 0);
            lemma_heading_index(g, x, y - 1, g.nt - 1);
            let (c, d) = ((y - 1) * g.nx + x, v * g.nx + u);
            assert(c != d) by {
                if c == d {
                    crate::grid::lemma_cell_injective(x, y - 1, u, v, g.nx);
                }
            }
            assert(i < c * g.nt || c * g.nt + g.nt <= i) by (nonlinear_arith)
                requires
                    i == d * g.nt + t,
                    0 <= t < g.nt,
                    c != d,
            ;
            lemma_cell_pass_frame(
                l.base.model(),
                column_pass(l, s, x, lo, y - 1),
                c,
                g.nt,
                i,
            );
        }
    }
}

/// A sweep of the window changes nothing outside the window.
pub proof fn law_sweep_stays_inside(
    l: ValueIteratorLocal,
    s: Seq<State>,
    lo: int,
    x: int,
    u: int,
    v: int,
    t: int,
)
    requires
        l.wf(),
        s.len() == l.base.grid().len(),
        on_axis(u, l.base.grid().nx),
        on_axis(v, l.base.grid().ny),
        on_axis(t, l.base.grid().nt),
        !l.covers(u, v),
    ensures
        window_pass(l, s, lo, x).len() == s.len(),
        window_pass(l, s, lo, x)[l.base.grid().at(u, v, t)] == s[l.base.grid().at(u, v, t)],
    decreases x - lo,
{
    lemma_heading_index(l.base.grid(), u, v, t);
    if x > lo {
        law_sweep_stays_inside(l, s, lo, x - 1, u, v, t);
        lemma_column_frame(
            l,
            window_pass(l, s, lo, x - 1),
            x - 1,
            l.local_iy_min as int,
            l.local_iy_max + 1,
            l.base.grid().at(u, v, t),
            u,
            v,
            t,
        );
    }
}

impl ValueIteratorLocal {
    /// Sweeps the window once.
    pub fn local_value_iteration_loop(&mut self)
        requires
            old(self).wf(),
            old(self).local_ix_max < i32::MAX,
            old(self).local_iy_max < i32::MAX,
        ensures
            final(self).wf(),
            final(self).same_window(*old(self)),
            final(self).base.states@ == window_pass(
                *old(self),
                old(self).base.states@,
                old(self).local_ix_min as int,
                old(self).local_ix_max + 1,
            ),
    {
        let ghost l = *self;
        let ghost s0 = self.base.states@;
        let nt: i32 = self.base.cell_num_t;
        let mut x: i32 = self.local_ix_min;
        while x <= self.local_ix_max
            invariant
                l.wf(),
                self.wf(),
                self.same_window(l),
                l.local_ix_max < i32::MAX,
                l.local_iy_max < i32::MAX,
                nt == l.base.cell_num_t,
                l.local_ix_min <= x,
                x <= l.local_ix_max + 1 || x == l.local_ix_min,
                self.base.states@ == window_pass(l, s0, l.local_ix_min as int, x as int),
            decreases l.local_ix_max + 1 - x,
        {
            let ghost s1 = self.base.states@;
            let mut y: i32 = self.local_iy_min;
            while y <= self.local_iy_max
                invariant
                    l.wf(),
                    self.wf(),
                    self.same_window(l),
                    l.local_iy_max < i32::MAX,
                    nt == l.base.cell_num_t,
                    l.local_ix_min <= x <= l.local_ix_max,
                    l.local_iy_min <= y,
                    y <= l.local_iy_max + 1 || y == l.local_iy_min,
                    self.base.states@ == column_pass(
                        l,
                        s1,
                        x as int,
                        l.local_iy_min as int,
                        y as int,
                    ),
                decreases l.local_iy_max + 1 - y,
            {
                let inside: bool = self.in_local_area(x, y);
                if inside {
                    let ghost s2 = self.base.states@;
                    let ghost m = l.base.model();
                    let ghost c = y * l.base.cell_num_x + x;
                    let mut t: i32 = 0;
                    while t < nt
                        invariant
                            l.wf(),
                            self.wf(),
                            self.same_window(l),
                            nt == l.base.cell_num_t,
                            m == l.base.model(),
                            c == y * l.base.cell_num_x + x,
                            l.local_ix_min <= x <= l.local_ix_max,
                            l.local_iy_min <= y <= l.local_iy_max,
                            0 <= t <= nt,
                            self.base.states@ == cell_pass(m, s2, c, t as int),
                        decreases nt - t,
                    {
                        proof {
                            lemma_heading_index(m.grid, x as int, y as int, t as int);
                        }
                        let i: usize = self.base.to_index(x, y, t) as usize;
                        self.value_iteration_local(i);
                        t += 1;
                    }
                }
                y += 1;
            }
            x += 1;
        }
    }
}

/// What happens to a state where a beam ends or passes.
#[derive(Clone, Copy, Debug, PartialEq, Eq, Structural)]
pub enum Touch {
    /// Halve the cost from observations.
    Halve,
    /// Set the cost from observations.
    Put(u64),
    /// Raise the cost from observations, if it is lower.
    Raise(u64),
    /// Make the state free, at the cost of one step.
    Open,
}

impl Touch {
    /// The state afterwards.
    pub open spec fn on(self, s: State) -> State {
        match self {
            Touch::Halve => State { local_penalty: s.local_penalty / 2, ..s },
            Touch::Put(p) => State { local_penalty: p, ..s },
            Touch::Raise(p) => State {
                local_penalty: if s.local_penalty >= p {
                    s.local_penalty
                } else {
                    p
                },
                ..s
            },
            Touch::Open => State { free: true, penalty: PROB_BASE, ..s },
        }
    }

    fn apply(self, s: State) -> (r: State)
        ensures
            r == self.on(s),
    {
        let mut r: State = s;
        match self {
            Touch::Halve => {
                r.local_penalty = s.local_penalty / 2;
            },
            Touch::Put(p) => {
                r.local_penalty = p;
            },
            Touch::Raise(p) => {
                if s.local_penalty < p {
                    r.local_penalty = p;
                }
            },
            Touch::Open => {
                r.free = true;
                r.penalty = PROB_BASE;
            },
        }
        r
    }
}

/// All headings of the cell `(x, y)` have been touched, and no other state.
pub open spec fn touched(s: Seq<State>, x: int, y: int, how: Touch) -> Seq<State> {
    Seq::new(
        s.len(),
        |i: int|
            if s[i].ix == x && s[i].iy == y {
                how.on(s[i])
            } else {
                s[i]
            },
    )
}

impl ValueIteratorLocal {
    /// Touches all headings of a cell of the map.
    fn touch_cell(&mut self, x: i32, y: i32, how: Touch)
        requires
            old(self).wf(),
            on_axis(x as int, old(self).base.cell_num_x as int),
            on_axis(y as int, old(self).base.cell_num_y as int),
        ensures
            final(self).wf(),
            final(self).same_window(*old(self)),
            final(self).base.states@ == touched(
                old(self).base.states@,
                x as int,
                y as int,
                how,
            ),
    {
        let ghost l = *self;
        let ghost s0 = self.base.states@;
        let ghost g = self.base.grid();
        let nt: i32 = self.base.cell_num_t;
        let mut t: i32 = 0;
        while t < nt
            invariant
                l.wf(),
                self.wf(),
                self.same_window(l),
                nt == l.base.cell_num_t,
                g == l.base.grid(),
                s0 == l.base.states@,
                on_axis(x as int, g.nx),
                on_axis(y as int, g.ny),
                0 <= t <= nt,
                forall|i: int|
                    0 <= i < s0.len() ==> #[trigger] self.base.states@[i] == if s0[i].ix == x
                        && s0[i].iy == y && s0[i].it < t {
                        how.on(s0[i])
                    } else {
                        s0[i]
                    },
            decreases nt - t,
        {
            proof {
                lemma_heading_index(g, x as int, y as int, t as int);
            }
            let i: usize = self.base.to_index(x, y, t) as usize;
            let ghost s1 = self.base.states@;
            proof {
                assert(g.located_at(s0[i as int], i as int));
                crate::grid::lemma_index_injective(
                    s0[i as int].ix as int,
                    s0[i as int].iy as int,
                    s0[i as int].it as int,
                    x as int,
                    y as int,
                    t as int,
                    g.nx,
                    g.nt,
                );
                assert(s1[i as int] == s0[i as int]);
            }
            let st: State = how.apply(self.base.states[i]);
            self.base.states.set(i, st);
            proof {
                let s2 = self.base.states@;
                assert forall|k: int| 0 <= k < s0.len() implies #[trigger] s2[k] == if s0[k].ix == x
                    && s0[k].iy == y && s0[k].it < t + 1 {
                    how.on(s0[k])
                } else {
                    s0[k]
                } by {
                    if k != i {
                        assert(s2[k] == s1[k]);
                        assert(g.located_at(s0[k], k));
                    }
                }
                assert forall|k: int| 0 <= k < s2.len() implies g.located_at(
                    #[trigger] s2[k],
                    k,
                ) by {
                    assert(g.located_at(s0[k], k));
                }
                assert forall|k: int| 0 <= k < s2.len() implies ((
                #[trigger] s2[k]).optimal_action matches Some(a) ==> a
                    < l.base.actions@.len()) by {
                    let st = s0[k];
                }
            }
            t += 1;
        }
        proof {
            assert forall|i: int| 0 <= i < s0.len() implies (#[trigger] s0[i]).it < nt by {
                assert(g.located_at(s0[i], i));
            }
            assert(self.base.states@ =~= touched(s0, x as int, y as int, how));
        }
    }

    /// Touches a cell if it belongs to the window, and says whether it does.
    fn touch_inside(&mut self, x: i32, y: i32, how: Touch) -> (r: bool)
        requires
            old(self).wf(),
        ensures
            final(self).wf(),
            final(self).same_window(*old(self)),
            r == old(self).covers(x as int, y as int),
            final(self).base.states@ == touched_inside(
                *old(self),
                old(self).base.states@,
                x as int,
                y as int,
                how,
            ),
    {
        if self.in_local_area(x, y) {
            self.touch_cell(x, y, how);
            true
        } else {
            false
        }
    }

    /// A beam passed through the cell: whatever the map says, it is free. Says whether
    /// the beam is still in the window.
    pub fn open_cell(&mut self, x: i32, y: i32) -> (r: bool)
        requires
            old(self).wf(),
        ensures
            final(self).wf(),
            final(self).same_window(*old(self)),
            r == old(self).covers(x as int, y as int),
            final(self).base.states@ == touched_inside(
                *old(self),
                old(self).base.states@,
                x as int,
                y as int,
                Touch::Open,
            ),
    {
        self.touch_inside(x, y, Touch::Open)
    }
}

/// The states after a cell of the window has been touched. Cells outside stay.
pub open spec fn touched_inside(
    l: ValueIteratorLocal,
    s: Seq<State>,
    x: int,
    y: int,
    how: Touch,
) -> Seq<State> {
    if l.covers(x, y) {
        touched(s, x, y, how)
    } else {
        s
    }
}

/// What one beam of the laser says: the cells that it passed, and the cell where it
/// ended.
pub struct Beam {
    pub passed: Vec<(i32, i32)>,
    pub hit: (i32, i32),
}

/// The states after the first `n` passed cells have been made cheaper.
pub open spec fn after_passed(
    l: ValueIteratorLocal,
    s: Seq<State>,
    cells: Seq<(i32, i32)>,
    n: int,
) -> Seq<State>
    decreases n,
{
    if n <= 0 {
        s
    } else {
        touched_inside(
            l,
            after_passed(l, s, cells, n - 1),
            cells[n - 1].0 as int,
            cells[n - 1].1 as int,
            Touch::Halve,
        )
    }
}

/// The states after the first `n` of the 25 cells around a hit have been made costly.
pub open spec fn after_hit(
    l: ValueIteratorLocal,
    s: Seq<State>,
    hit: (i32, i32),
    cost: u64,
    n: int,
) -> Seq<State>
    decreases n,
{
    if n <= 0 {
        s
    } else {
        touched_inside(
            l,
            after_hit(l, s, hit, cost, n - 1),
            hit.0 - 2 + (n - 1) / 5,
            hit.1 - 2 + (n - 1) % 5,
            Touch::Put(cost),
        )
    }
}

/// The states after the first `n` beams.
pub open spec fn after_beams(
    l: ValueIteratorLocal,
    s: Seq<State>,
    beams: Seq<Beam>,
    cost: u64,
    n: int,
) -> Seq<State>
    decreases n,
{
    if n <= 0 {
        s
    } else {
        let b = beams[n - 1];
        after_hit(
            l,
            after_passed(
                l,
                after_beams(l, s, beams, cost, n - 1),
                b.passed@,
                b.passed@.len() as int,
            ),
            b.hit,
            cost,
            25,
        )
    }
}

/// What a hit costs when it is halved `shift` times, but never less than one step.
pub open spec fn hit_cost(shift: u32) -> u64 {
    let n = if shift < MAX_SHIFT {
        shift
    } else {
        MAX_SHIFT
    };
    ((LASER_STEPS >> n) << PROB_BASE_BIT)
}

/// The window does not change while its states do.
proof fn lemma_same_cover(a: ValueIteratorLocal, b: ValueIteratorLocal)
    requires
        a.same_window(b),
    ensures
        forall|x: int, y: int| #[trigger] a.covers(x, y) == b.covers(x, y),
{
}

impl ValueIteratorLocal {
    /// Writes what the laser saw into the window: where beams passed costs are halved,
    /// around their ends they are set.
    pub fn set_local_cost(&mut self, beams: &Vec<Beam>)
        requires
            old(self).wf(),
            forall|k: int|
                0 <= k < beams@.len() ==> i32::MIN + 2 <= (#[trigger] beams@[k]).hit.0 <= i32::MAX
                    - 2 && i32::MIN + 2 <= beams@[k].hit.1 <= i32::MAX - 2,
        ensures
            final(self).wf(),
            final(self).same_window(*old(self)),
            final(self).base.states@ == after_beams(
                *old(self),
                old(self).base.states@,
                beams@,
                hit_cost(0),
                beams@.len() as int,
            ),
    {
        self.set_local_cost_attenuated(beams, 0)
    }

    /// Writes what the laser saw into the window, with the cost of a hit halved `shift`
    /// times.
    pub fn set_local_cost_attenuated(&mut self, beams: &Vec<Beam>, shift: u32)
        requires
            old(self).wf(),
            forall|k: int|
                0 <= k < beams@.len() ==> i32::MIN + 2 <= (#[trigger] beams@[k]).hit.0 <= i32::MAX
                    - 2 && i32::MIN + 2 <= beams@[k].hit.1 <= i32::MAX - 2,
        ensures
            final(self).wf(),
            final(self).same_window(*old(self)),
            final(self).base.states@ == after_beams(
                *old(self),
                old(self).base.states@,
                beams@,
                hit_cost(shift),
                beams@.len() as int,
            ),
    {
        let ghost l = *self;
        let ghost s0 = self.base.states@;
        let n: u32 = if shift < MAX_SHIFT {
            shift
        } else {
            MAX_SHIFT
        };
        let cost: u64 = (LASER_STEPS >> n) << PROB_BASE_BIT;
        let mut k: usize = 0;
        while k < beams.len()
            invariant
                l.wf(),
                self.wf(),
                self.same_window(l),
                forall|k: int|
                    0 <= k < beams@.len() ==> i32::MIN + 2 <= (#[trigger] beams@[k]).hit.0
                        <= i32::MAX - 2 && i32::MIN + 2 <= beams@[k].hit.1 <= i32::MAX - 2,
                k <= beams@.len(),
                self.base.states@ == after_beams(l, s0, beams@, cost, k as int),
            decreases beams.len() - k,
        {
            let b: &Beam = &beams[k];
            let ghost s1 = self.base.states@;
            let mut i: usize = 0;
            while i < b.passed.len()
                invariant
                    l.wf(),
                    self.wf(),
                    self.same_window(l),
                    i <= b.passed@.len(),
                    self.base.states@ == after_passed(l, s1, b.passed@, i as int),
                decreases b.passed.len() - i,
            {
                let (x, y) = b.passed[i];
                proof {
                    lemma_same_cover(*self, l);
                }
                self.touch_inside(x, y, Touch::Halve);
                i += 1;
            }
            let ghost s2 = self.base.states@;
            let (hx, hy) = b.hit;
            let mut j: i32 = 0;
            while j < 25
                invariant
                    l.wf(),
                    self.wf(),
                    self.same_window(l),
                    (hx, hy) == b.hit,
                    i32::MIN + 2 <= hx <= i32::MAX - 2,
                    i32::MIN + 2 <= hy <= i32::MAX - 2,
                    0 <= j <= 25,
                    self.base.states@ == after_hit(l, s2, b.hit, cost, j as int),
                decreases 25 - j,
            {
                proof {
                    lemma_same_cover(*self, l);
                }
                let x: i32 = hx - 2 + j / 5;
                let y: i32 = hy - 2 + j % 5;
                self.touch_inside(x, y, Touch::Put(cost));
                j += 1;
            }
            k += 1;
        }
    }
}

/// Distance of two cells, counted in steps over sides and corners.
pub open spec fn linf(dx: int, dy: int) -> int {
    let (a, b) = (crate::chamfer::abs(dx), crate::chamfer::abs(dy));
    if a <= b {
        b
    } else {
        a
    }
}

/// `r` is the distance of the cell `(x, y)` to the nearest obstacle, but `u16::MAX` at
/// most.
pub open spec fn is_linf_distance(
    obstacles: Seq<bool>,
    nx: int,
    ny: int,
    x: int,
    y: int,
    r: u16,
) -> bool {
    &&& forall|u: int, v: int|
        #![trigger obstacles[v * nx + u]]
        on_axis(u, nx) && on_axis(v, ny) && obstacles[v * nx + u] ==> r <= linf(x - u, y - v)
    &&& r == u16::MAX || exists|u: int, v: int|
        #![trigger obstacles[v * nx + u]]
        on_axis(u, nx) && on_axis(v, ny) && obstacles[v * nx + u] && r == linf(x - u, y - v)
}

/// Distances of all cells to the nearest obstacle, row by row.
pub fn dist_linf(nx: i32, ny: i32, obstacles: &Vec<bool>) -> (r: Vec<u16>)
    requires
        0 < nx && 0 < ny ==> nx * ny <= i32::MAX && obstacles@.len() == nx * ny,
    ensures
        nx <= 0 || ny <= 0 ==> r@.len() == 0,
        0 <= nx && 0 <= ny ==> r@.len() == nx * ny,
        forall|x: int, y: int|
            #![trigger r@[y * nx + x]]
            on_axis(x, nx as int) && on_axis(y, ny as int) ==> is_linf_distance(
                obstacles@,
                nx as int,
                ny as int,
                x,
                y,
                r@[y * nx + x],
            ),
{
    if nx <= 0 || ny <= 0 {
        assert(nx == 0 || ny == 0 ==> nx * ny == 0) by (nonlinear_arith);
        return Vec::new();
    }
    let far: Vec<u32> = distances(obstacles, nx, ny, 1, 1, u16::MAX as u32);
    let ghost all = far@;
    let mut out: Vec<u16> = Vec::new();
    let mut i: usize = 0;
    proof {
        assert forall|k: int| 0 <= k < all.len() implies #[trigger] all[k] <= u16::MAX by {
            lemma_split(k, nx as int, ny as int);
            let (x, y) = (k % (nx as int), k / (nx as int));
            assert(all[y * nx + x] <= u16::MAX);
        }
    }
    while i < far.len()
        invariant
            all == far@,
            forall|k: int| 0 <= k < all.len() ==> #[trigger] all[k] <= u16::MAX,
            i <= all.len(),
            out@.len() == i,
            forall|k: int| 0 <= k < i ==> #[trigger] out@[k] == all[k],
        decreases far.len() - i,
    {
        out.push(far[i] as u16);
        i += 1;
    }
    proof {
        assert forall|x: int, y: int|
            #![trigger out@[y * nx + x]]
            on_axis(x, nx as int) && on_axis(y, ny as int) implies is_linf_distance(
            obstacles@,
            nx as int,
            ny as int,
            x,
            y,
            out@[y * nx + x],
        ) by {
            lemma_cell_bound(x, y, nx as int, ny as int);
            let r = all[y * nx + x];
            assert(out@[y * nx + x] == r);
            assert(is_distance(
                obstacles@,
                nx as int,
                ny as int,
                1,
                1,
                u16::MAX as int,
                x,
                y,
                r as int,
            ));
            assert forall|u: int, v: int|
                #![trigger obstacles@[v * nx + u]]
                on_axis(u, nx as int) && on_axis(v, ny as int) && obstacles@[v * nx
                    + u] implies r <= linf(x - u, y - v) by {
                lemma_linf(x - u, y - v);
            }
            if r != u16::MAX {
                let (u, v) = choose|u: int, v: int|
                    #![trigger obstacles@[v * nx + u]]
                    on_axis(u, nx as int) && on_axis(v, ny as int) && obstacles@[v * nx + u] && r
                        == octile(x - u, y - v, 1, 1);
                lemma_linf(x - u, y - v);
                assert(obstacles@[v * nx + u]);
            }
        }
    }
    out
}

proof fn lemma_linf(dx: int, dy: int)
    ensures
        octile(dx, dy, 1, 1) == linf(dx, dy),
{
}

proof fn lemma_split(k: int, w: int, h: int)
    requires
        0 <= k < w * h,
        0 <= w,
        0 <= h,
    ensures
        on_axis(k % w, w),
        on_axis(k / w, h),
        k == (k / w) * w + k % w,
{
    assert(w > 0) by (nonlinear_arith)
        requires
            0 < w * h,
            0 <= w,
            0 <= h,
    ;
    vstd::arithmetic::div_mod::lemma_fundamental_div_mod(k, w);
    vstd::arithmetic::div_mod::lemma_mod_bound(k, w);
    assert(k / w < h) by (nonlinear_arith)
        requires
            k == w * (k / w) + k % w,
            0 <= k % w,
            k < w * h,
            0 < w,
    ;
    assert(0 <= k / w) by (nonlinear_arith)
        requires
            k == w * (k / w) + k % w,
            k % w < w,
            0 <= k,
            0 < w,
    ;
    assert((k / w) * w == w * (k / w)) by (nonlinear_arith);
}

/// The cells of a map that are not free, judged by their first heading.
pub open spec fn walls(vi: ValueIterator) -> Seq<bool> {
    let g = vi.grid();
    Seq::new((g.nx * g.ny) as nat, |c: int| !vi.states@[c * g.nt].free)
}

/// `d` holds the distances of all cells to the nearest wall.
pub open spec fn wall_distances(vi: ValueIterator, d: Seq<u16>) -> bool {
    let g = vi.grid();
    &&& d.len() == g.nx * g.ny
    &&& forall|x: int, y: int|
        #![trigger d[y * g.nx + x]]
        on_axis(x, g.nx) && on_axis(y, g.ny) ==> is_linf_distance(
            walls(vi),
            g.nx,
            g.ny,
            x,
            y,
            d[y * g.nx + x],
        )
}

/// The states after the band around walls has been made costly: the cells of the window
/// that are more than `near` and at most `far` away from a wall.
pub open spec fn inflated(
    l: ValueIteratorLocal,
    d: Seq<u16>,
    near: u16,
    far: int,
    cost: u64,
) -> Seq<State> {
    let s = l.base.states@;
    Seq::new(
        s.len(),
        |i: int|
            if l.covers(s[i].ix as int, s[i].iy as int) && near < d[s[i].iy * l.base.cell_num_x
                + s[i].ix] <= far {
                Touch::Raise(cost).on(s[i])
            } else {
                s[i]
            },
    )
}

impl ValueIteratorLocal {
    /// Finds the distances to walls, unless they are known.
    pub fn ensure_obstacle_dist(&mut self)
        requires
            old(self).wf(),
            old(self).base.cell_num_t > 0,
        ensures
            final(self).wf(),
            final(self).base == old(self).base,
            *final(self) == (ValueIteratorLocal {
                obstacle_dist: final(self).obstacle_dist,
                ..*old(self)
            }),
            old(self).obstacle_dist@.len() > 0 ==> final(self).obstacle_dist@ == old(
                self,
            ).obstacle_dist@,
            old(self).obstacle_dist@.len() == 0 ==> wall_distances(
                old(self).base,
                final(self).obstacle_dist@,
            ),
    {
        if self.obstacle_dist.len() > 0 {
            return;
        }
        let ghost g = self.base.grid();
        let n: i32 = self.base.cell_num_x * self.base.cell_num_y;
        let nt: usize = self.base.cell_num_t as usize;
        let mut obstacles: Vec<bool> = Vec::new();
        let mut c: usize = 0;
        while c < n as usize
            invariant
                self.wf(),
                g == self.base.grid(),
                n == g.nx * g.ny,
                nt == g.nt,
                nt > 0,
                c <= n,
                obstacles@.len() == c,
                forall|k: int|
                    0 <= k < c ==> #[trigger] obstacles@[k] == !self.base.states@[k * g.nt].free,
            decreases n - c,
        {
            proof {
                assert(0 <= c * nt < g.len()) by (nonlinear_arith)
                    requires
                        0 <= c,
                        c + 1 <= n,
                        n == g.nx * g.ny,
                        g.len() == g.nx * g.ny * g.nt,
                        nt == g.nt,
                        0 < nt,
                ;
            }
            obstacles.push(!self.base.states[c * nt].free);
            c += 1;
        }
        assert(obstacles@ =~= walls(self.base));
        self.obstacle_dist = dist_linf(self.base.cell_num_x, self.base.cell_num_y, &obstacles);
    }

    /// Widens the margin around walls by `extra` cells: in the window, the cells that are
    /// more than `margin` and at most `margin + extra` away from a wall cost `cost` at
    /// least. With nothing to add nothing changes.
    pub fn inflate_by_sigma(&mut self, margin: u16, extra: u16, cost: u64)
        requires
            old(self).wf(),
            old(self).base.cell_num_t > 0,
            old(self).local_ix_max < i32::MAX,
            old(self).local_iy_max < i32::MAX,
            old(self).obstacle_dist@.len() > 0 ==> old(self).obstacle_dist@.len() == old(
                self,
            ).base.cell_num_x * old(self).base.cell_num_y,
        ensures
            final(self).wf(),
            final(self).same_window(
                (ValueIteratorLocal { obstacle_dist: final(self).obstacle_dist, ..*old(self) }),
            ),
            extra == 0 ==> final(self).base.states@ == old(self).base.states@
                && final(self).obstacle_dist@ == old(self).obstacle_dist@,
            extra > 0 ==> {
                &&& if old(self).obstacle_dist@.len() > 0 {
                    final(self).obstacle_dist@ == old(self).obstacle_dist@
                } else {
                    wall_distances(old(self).base, final(self).obstacle_dist@)
                }
                &&& final(self).base.states@ == inflated(
                    *old(self),
                    final(self).obstacle_dist@,
                    margin,
                    margin + extra,
                    cost,
                )
            },
    {
        if extra == 0 {
            return;
        }
        let ghost l = *self;
        let ghost s0 = self.base.states@;
        self.ensure_obstacle_dist();
        let ghost d = self.obstacle_dist@;
        let ghost l1 = *self;
        let far: u32 = margin as u32 + extra as u32;
        let nx: i32 = self.base.cell_num_x;
        let mut x: i32 = self.local_ix_min;
        assert(self.base.states@ =~= banded(l, d, margin, far as int, cost, x as int, 0));
        while x <= self.local_ix_max
            invariant
                l.wf(),
                self.wf(),
                self.same_window(l1),
                l1 == (ValueIteratorLocal { obstacle_dist: l1.obstacle_dist, ..l }),
                d == self.obstacle_dist@,
                d.len() == l.base.cell_num_x * l.base.cell_num_y,
                l.local_ix_max < i32::MAX,
                l.local_iy_max < i32::MAX,
                far == margin + extra,
                nx == l.base.cell_num_x,
                l.local_ix_min <= x,
                x <= l.local_ix_max + 1 || x == l.local_ix_min,
                self.base.states@ == banded(l, d, margin, far as int, cost, x as int, 0),
            decreases l.local_ix_max + 1 - x,
        {
            let mut y: i32 = self.local_iy_min;
            proof {
                assert(banded(l, d, margin, far as int, cost, x as int, 0) =~= banded(
                    l,
                    d,
                    margin,
                    far as int,
                    cost,
                    x as int,
                    y as int,
                ));
            }
            while y <= self.local_iy_max
                invariant
                    l.wf(),
                    self.wf(),
                    self.same_window(l1),
                    l1 == (ValueIteratorLocal { obstacle_dist: l1.obstacle_dist, ..l }),
                    d == self.obstacle_dist@,
                    d.len() == l.base.cell_num_x * l.base.cell_num_y,
                    l.local_iy_max < i32::MAX,
                    far == margin + extra,
                    nx == l.base.cell_num_x,
                    l.local_ix_min <= x <= l.local_ix_max,
                    l.local_iy_min <= y,
                    y <= l.local_iy_max + 1 || y == l.local_iy_min,
                    self.base.states@ == banded(
                        l,
                        d,
                        margin,
                        far as int,
                        cost,
                        x as int,
                        y as int,
                    ),
                decreases l.local_iy_max + 1 - y,
            {
                proof {
                    lemma_cell_bound(x as int, y as int, nx as int, l.base.cell_num_y as int);
                    assert(0 <= y * nx) by (nonlinear_arith)
                        requires
                            0 <= y,
                            0 <= nx,
                    ;
                    lemma_same_cover(*self, l1);
                    assert(l1.covers(x as int, y as int) == l.covers(x as int, y as int));
                }
                if self.in_local_area(x, y) {
                    let far_off: u32 = self.obstacle_dist[(y * nx + x) as usize] as u32;
                    if far_off > margin as u32 && far_off <= far {
                        self.touch_cell(x, y, Touch::Raise(cost));
                    }
                }
                proof {
                    assert(self.base.states@ =~= banded(
                        l,
                        d,
                        margin,
                        far as int,
                        cost,
                        x as int,
                        y + 1,
                    ));
                }
                y += 1;
            }
            proof {
                assert(banded(l, d, margin, far as int, cost, x as int, y as int) =~= banded(
                    l,
                    d,
                    margin,
                    far as int,
                    cost,
                    x + 1,
                    0,
                ));
            }
            x += 1;
        }
        assert(self.base.states@ =~= inflated(l, d, margin, far as int, cost));
    }
}

/// The states after the columns before `x`, and of column `x` the cells before `y`, have
/// been made costly.
spec fn banded(
    l: ValueIteratorLocal,
    d: Seq<u16>,
    near: u16,
    far: int,
    cost: u64,
    x: int,
    y: int,
) -> Seq<State> {
    let s = l.base.states@;
    let all = inflated(l, d, near, far, cost);
    Seq::new(
        s.len(),
        |i: int|
            if s[i].ix < x || s[i].ix == x && s[i].iy < y {
                all[i]
            } else {
                s[i]
            },
    )
}

/// After a beam ended in `hit`, every state of the window that lies at most two columns and
/// two rows from there has the cost of a hit and is otherwise what it was, and every other
/// state is what it was.
pub proof fn law_hit_marks_its_surroundings(
    l: ValueIteratorLocal,
    s: Seq<State>,
    hit: (i32, i32),
    cost: u64,
    i: int,
)
    requires
        0 <= i < s.len(),
    ensures
        after_hit(l, s, hit, cost, 25).len() == s.len(),
        ({
            let (x, y) = (s[i].ix as int, s[i].iy as int);
            if abs(x - hit.0) <= 2 && abs(y - hit.1) <= 2 && l.covers(x, y) {
                after_hit(l, s, hit, cost, 25)[i] == (State { local_penalty: cost, ..s[i] })
            } else {
                after_hit(l, s, hit, cost, 25)[i] == s[i]
            }
        }),
{
    lemma_marked(l, s, hit, cost, i, 25);
    let (dx, dy) = (s[i].ix - hit.0 + 2, s[i].iy - hit.1 + 2);
    if 0 <= dx <= 4 && 0 <= dy <= 4 {
        let j = 5 * dx + dy;
        assert(j / 5 == dx && j % 5 == dy && 0 <= j < 25);
    }
}

/// The state `i` lies in one of the first `n` cells around the hit, counted row by row.
spec fn is_marked(st: State, hit: (i32, i32), n: int) -> bool {
    let (dx, dy) = (st.ix - hit.0 + 2, st.iy - hit.1 + 2);
    0 <= dx <= 4 && 0 <= dy <= 4 && 5 * dx + dy < n
}

proof fn lemma_marked(
    l: ValueIteratorLocal,
    s: Seq<State>,
    hit: (i32, i32),
    cost: u64,
    i: int,
    n: int,
)
    requires
        0 <= i < s.len(),
        0 <= n <= 25,
    ensures
        after_hit(l, s, hit, cost, n).len() == s.len(),
        is_marked(s[i], hit, n) && l.covers(s[i].ix as int, s[i].iy as int) ==> after_hit(
            l,
            s,
            hit,
            cost,
            n,
        )[i] == (State { local_penalty: cost, ..s[i] }),
        !(is_marked(s[i], hit, n) && l.covers(s[i].ix as int, s[i].iy as int)) ==> after_hit(
            l,
            s,
            hit,
            cost,
            n,
        )[i] == s[i],
    decreases n,
{
    if n > 0 {
        lemma_marked(l, s, hit, cost, i, n - 1);
        let j = n - 1;
        assert(0 <= j / 5 <= 4 && 0 <= j % 5 <= 4 && 5 * (j / 5) + j % 5 == j);
    }
}

/// How often the cell `(x, y)` is among the first `n` cells.
pub open spec fn times_passed(cells: Seq<(i32, i32)>, x: int, y: int, n: int) -> int
    decreases n,
{
    if n <= 0 {
        0
    } else {
        times_passed(cells, x, y, n - 1) + if cells[n - 1].0 == x && cells[n - 1].1 == y {
            1int
        } else {
            0
        }
    }
}

/// Every state of the window has its cost halved once for each time that the beam passed its
/// cell and is otherwise what it was, and a state whose cell the beam did not pass, or that
/// lies outside the window, is what it was.
pub proof fn law_passed_cells_are_halved(
    l: ValueIteratorLocal,
    s: Seq<State>,
    cells: Seq<(i32, i32)>,
    n: int,
    i: int,
)
    requires
        0 <= i < s.len(),
        0 <= n <= cells.len(),
    ensures
        after_passed(l, s, cells, n).len() == s.len(),
        ({
            let (x, y) = (s[i].ix as int, s[i].iy as int);
            let k = times_passed(cells, x, y, n);
            let new = after_passed(l, s, cells, n)[i];
            &&& 0 <= k
            &&& new == (State { local_penalty: new.local_penalty, ..s[i] })
            &&& new.local_penalty <= s[i].local_penalty
            &&& !l.covers(x, y) || k == 0 ==> new == s[i]
            &&& l.covers(x, y) ==> new.local_penalty * pow2(k as nat) <= s[i].local_penalty < (
            new.local_penalty + 1) * pow2(k as nat)
        }),
    decreases n,
{
    vstd::arithmetic::power2::lemma2_to64();
    if n <= 0 {
        assert(pow2(0) == 1);
        let c = s[i].local_penalty as int;
        assert(c * 1 == c && (c + 1) * 1 == c + 1);
    } else {
        law_passed_cells_are_halved(l, s, cells, n - 1, i);
        let (x, y) = (s[i].ix as int, s[i].iy as int);
        let k = times_passed(cells, x, y, n - 1);
        let a = after_passed(l, s, cells, n - 1)[i].local_penalty as int;
        let b = after_passed(l, s, cells, n)[i].local_penalty as int;
        if cells[n - 1].0 == x && cells[n - 1].1 == y && l.covers(x, y) {
            let p = pow2(k as nat) as int;
            vstd::arithmetic::power2::lemma_pow2_unfold((k + 1) as nat);
            vstd::arithmetic::power2::lemma_pow2_pos(k as nat);
            assert(pow2((k + 1) as nat) == 2 * p);
            assert(b * (2 * p) <= a * p && (a + 1) * p <= (b + 1) * (2 * p)) by (nonlinear_arith)
                requires
                    2 * b <= a <= 2 * b + 1,
                    0 < p,
            ;
            let c = s[i].local_penalty as int;
            assert(a * p <= c < (a + 1) * p);
            assert(times_passed(cells, x, y, n) == k + 1);
            assert(b * pow2((k + 1) as nat) <= c < (b + 1) * pow2((k + 1) as nat));
        }
    }
}

/// What one beam does to the states: the cells that it passed are halved, then the cells
/// around its end are set. A state near the end has the cost of a hit, however often the beam
/// passed it.
pub proof fn law_beam_marks_and_clears(
    l: ValueIteratorLocal,
    s: Seq<State>,
    beams: Seq<Beam>,
    cost: u64,
    n: int,
    i: int,
)
    requires
        0 <= i < s.len(),
        0 < n <= beams.len(),
    ensures
        after_beams(l, s, beams, cost, n).len() == s.len(),
        ({
            let b = beams[n - 1];
            let before = after_beams(l, s, beams, cost, n - 1)[i];
            let after = after_beams(l, s, beams, cost, n)[i];
            let (x, y) = (s[i].ix as int, s[i].iy as int);
            let k = times_passed(b.passed@, x, y, b.passed@.len() as int);
            &&& after == (State { local_penalty: after.local_penalty, ..s[i] })
            &&& !l.covers(x, y) ==> after == s[i]
            &&& l.covers(x, y) && abs(x - b.hit.0) <= 2 && abs(y - b.hit.1) <= 2
                ==> after.local_penalty == cost
            &&& l.covers(x, y) && !(abs(x - b.hit.0) <= 2 && abs(y - b.hit.1) <= 2)
                ==> after.local_penalty * pow2(k as nat) <= before.local_penalty < (
            after.local_penalty + 1) * pow2(k as nat)
        }),
    decreases n,
{
    let b = beams[n - 1];
    let s1 = after_beams(l, s, beams, cost, n - 1);
    if n > 1 {
        law_beam_marks_and_clears(l, s, beams, cost, n - 1, i);
    }
    let len = b.passed@.len() as int;
    law_passed_cells_are_halved(l, s1, b.passed@, len, i);
    law_hit_marks_its_surroundings(l, after_passed(l, s1, b.passed@, len), b.hit, cost, i);
}

/// An unattenuated hit costs as much as 2048 steps. Every attenuation halves the cost of a
/// hit, down to that of a single step.
pub proof fn law_attenuation_halves_a_hit(shift: u32)
    ensures
        hit_cost(0) == 2048 * PROB_BASE,
        shift < 11 ==> hit_cost(shift) == 2 * hit_cost((shift + 1) as u32),
        shift >= 11 ==> hit_cost(shift) == PROB_BASE,
{
    let n = shift;
    assert((2048u64 >> 0u32) << 18u32 == 2048 * 262_144u64) by (bit_vector);
    assert((2048u64 >> 11u32) << 18u32 == 262_144u64) by (bit_vector);
    if n < 11 {
        assert((2048u64 >> n) << 18u32 == 2 * ((2048u64 >> ((n + 1) as u32)) << 18u32))
            by (bit_vector)
            requires
                n < 11,
        ;
    }
}

/// Updating columns leaves the states of all other columns.
proof fn lemma_other_column(
    l: ValueIteratorLocal,
    s: Seq<State>,
    x: int,
    lo: int,
    y: int,
    u: int,
    v: int,
    t: int,
)
    requires
        l.wf(),
        s.len() == l.base.grid().len(),
        on_axis(u, l.base.grid().nx),
        on_axis(v, l.base.grid().ny),
        on_axis(t, l.base.grid().nt),
        u != x || v < lo || v >= y,
    ensures
        column_pass(l, s, x, lo, y).len() == s.len(),
        column_pass(l, s, x, lo, y)[l.base.grid().at(u, v, t)] == s[l.base.grid().at(u, v, t)],
    decreases y - lo,
{
    let g = l.base.grid();
    let i = g.at(u, v, t);
    lemma_heading_index(g, u, v, t);
    if y > lo {
        lemma_other_column(l, s, x, lo, y - 1, u, v, t);
        if l.covers(x, y - 1) {
            lemma_heading_index(g, x, y - 1, 0);
            lemma_heading_index(g, x, y - 1, g.nt - 1);
            let (c, d) = ((y - 1) * g.nx + x, v * g.nx + u);
            assert(c != d) by {
                if c == d {
                    crate::grid::lemma_cell_injective(x, y - 1, u, v, g.nx);
                }
            }
            assert(i < c * g.nt || c * g.nt + g.nt <= i) by (nonlinear_arith)
                requires
                    i == d * g.nt + t,
                    0 <= t < g.nt,
                    c != d,
            ;
            lemma_cell_pass_frame(l.base.model(), column_pass(l, s, x, lo, y - 1), c, g.nt, i);
        }
    }
}

/// Sweeping columns leaves the states of all later columns.
proof fn lemma_later_columns(
    l: ValueIteratorLocal,
    s: Seq<State>,
    lo: int,
    x: int,
    u: int,
    v: int,
    t: int,
)
    requires
        l.wf(),
        s.len() == l.base.grid().len(),
        on_axis(u, l.base.grid().nx),
        on_axis(v, l.base.grid().ny),
        on_axis(t, l.base.grid().nt),
        u >= x,
    ensures
        window_pass(l, s, lo, x).len() == s.len(),
        window_pass(l, s, lo, x)[l.base.grid().at(u, v, t)] == s[l.base.grid().at(u, v, t)],
    decreases x - lo,
{
    if x > lo {
        lemma_later_columns(l, s, lo, x - 1, u, v, t);
        lemma_other_column(
            l,
            window_pass(l, s, lo, x - 1),
            x - 1,
            l.local_iy_min as int,
            l.local_iy_max + 1,
            u,
            v,
            t,
        );
    }
}

/// A sweep that changed nothing changed nothing on the way.
proof fn lemma_quiet_before(l: ValueIteratorLocal, s: Seq<State>, lo: int, x: int)
    requires
        l.wf(),
        l.base.grid().located(s),
        lo < x,
        window_pass(l, s, lo, x) == s,
    ensures
        window_pass(l, s, lo, x - 1) == s,
{
    let p = window_pass(l, s, lo, x - 1);
    let g = l.base.grid();
    assert(p.len() == s.len()) by {
        lemma_window_len(l, s, lo, x - 1);
    }
    assert forall|i: int| 0 <= i < s.len() implies p[i] == s[i] by {
        assert(g.located_at(s[i], i));
        let (u, v, t) = (s[i].ix as int, s[i].iy as int, s[i].it as int);
        if u >= x - 1 {
            lemma_later_columns(l, s, lo, x - 1, u, v, t);
        } else {
            lemma_other_column(
                l,
                p,
                x - 1,
                l.local_iy_min as int,
                l.local_iy_max + 1,
                u,
                v,
                t,
            );
        }
    }
    assert(p =~= s);
}

proof fn lemma_cell_len(m: Model, s: Seq<State>, c: int, k: int)
    requires
        0 <= c * m.grid.nt,
        c * m.grid.nt + k <= s.len() || k <= 0,
    ensures
        cell_pass(m, s, c, k).len() == s.len(),
    decreases k,
{
    if k > 0 {
        lemma_cell_len(m, s, c, k - 1);
    }
}

proof fn lemma_column_len(l: ValueIteratorLocal, s: Seq<State>, x: int, lo: int, y: int)
    requires
        l.wf(),
        s.len() == l.base.grid().len(),
    ensures
        column_pass(l, s, x, lo, y).len() == s.len(),
    decreases y - lo,
{
    if y > lo {
        lemma_column_len(l, s, x, lo, y - 1);
        let g = l.base.grid();
        if l.covers(x, y - 1) && g.nt > 0 {
            lemma_heading_index(g, x, y - 1, 0);
            lemma_heading_index(g, x, y - 1, g.nt - 1);
            lemma_cell_len(
                l.base.model(),
                column_pass(l, s, x, lo, y - 1),
                (y - 1) * g.nx + x,
                g.nt,
            );
        }
    }
}

proof fn lemma_window_len(l: ValueIteratorLocal, s: Seq<State>, lo: int, x: int)
    requires
        l.wf(),
        s.len() == l.base.grid().len(),
    ensures
        window_pass(l, s, lo, x).len() == s.len(),
    decreases x - lo,
{
    if x > lo {
        lemma_window_len(l, s, lo, x - 1);
        lemma_column_len(
            l,
            window_pass(l, s, lo, x - 1),
            x - 1,
            l.local_iy_min as int,
            l.local_iy_max + 1,
        );
    }
}

proof fn lemma_quiet_column(l: ValueIteratorLocal, s: Seq<State>, x: int, lo: int, y: int, v: int)
    requires
        l.wf(),
        l.base.grid().located(s),
        lo <= v < y,
        l.covers(x, v),
        column_pass(l, s, x, lo, y) == s,
    ensures
        cell_pass(
            l.base.model(),
            s,
            v * l.base.cell_num_x + x,
            l.base.cell_num_t as int,
        ) == s,
    decreases y - lo,
{
    let p = column_pass(l, s, x, lo, y - 1);
    let g = l.base.grid();
    lemma_column_len(l, s, x, lo, y - 1);
    assert forall|i: int| 0 <= i < s.len() implies p[i] == s[i] by {
        assert(g.located_at(s[i], i));
        let (a, b, t) = (s[i].ix as int, s[i].iy as int, s[i].it as int);
        if a != x || b >= y - 1 || b < lo {
            lemma_other_column(l, s, x, lo, y - 1, a, b, t);
        } else if l.covers(x, y - 1) {
            lemma_heading_index(g, a, b, t);
            lemma_heading_index(g, x, y - 1, 0);
            lemma_heading_index(g, x, y - 1, g.nt - 1);
            let (c, d) = ((y - 1) * g.nx + x, b * g.nx + a);
            assert(c != d) by {
                if c == d {
                    crate::grid::lemma_cell_injective(x, y - 1, a, b, g.nx);
                }
            }
            assert(i < c * g.nt || c * g.nt + g.nt <= i) by (nonlinear_arith)
                requires
                    i == d * g.nt + t,
                    0 <= t < g.nt,
                    c != d,
            ;
            lemma_cell_pass_frame(l.base.model(), p, c, g.nt, i);
        }
    }
    assert(p =~= s);
    if v < y - 1 {
        lemma_quiet_column(l, s, x, lo, y - 1, v);
    }
}

proof fn lemma_quiet_cell(m: Model, s: Seq<State>, c: int, k: int, t: int)
    requires
        0 <= t < k,
        0 <= c * m.grid.nt,
        c * m.grid.nt + k <= s.len(),
        cell_pass(m, s, c, k) == s,
    ensures
        m.updated(s, c * m.grid.nt + t) == s[c * m.grid.nt + t],
    decreases k,
{
    let p = cell_pass(m, s, c, k - 1);
    let j = c * m.grid.nt + k - 1;
    lemma_cell_len(m, s, c, k - 1);
    lemma_cell_later(m, s, c, k - 1, j);
    assert forall|i: int| 0 <= i < s.len() implies p[i] == s[i] by {
        if i != j {
            assert(m.upd(p, j)[i] == p[i]);
        }
    }
    assert(p =~= s);
    if t < k - 1 {
        lemma_quiet_cell(m, s, c, k - 1, t);
    } else {
        assert(m.upd(s, j)[j] == m.updated(s, j));
    }
}

proof fn lemma_cell_later(m: Model, s: Seq<State>, c: int, k: int, i: int)
    requires
        0 <= c * m.grid.nt,
        c * m.grid.nt + k <= i < s.len(),
    ensures
        cell_pass(m, s, c, k).len() == s.len(),
        cell_pass(m, s, c, k)[i] == s[i],
    decreases k,
{
    if k > 0 {
        lemma_cell_later(m, s, c, k - 1, i);
    }
}

/// A sweep of the window that changes nothing leaves every state of the window with the value
/// and the action that its update gives: no cell and no heading of the window is left out.
pub proof fn law_quiet_sweep_is_at_rest(
    l: ValueIteratorLocal,
    s: Seq<State>,
    x: int,
    u: int,
    v: int,
    t: int,
)
    requires
        l.wf(),
        l.base.grid().located(s),
        l.local_ix_min <= u < x,
        l.covers(u, v),
        on_axis(t, l.base.grid().nt),
        window_pass(l, s, l.local_ix_min as int, x) == s,
    ensures
        l.base.model().updated(s, l.base.grid().at(u, v, t)) == s[l.base.grid().at(u, v, t)],
    decreases x,
{
    let lo = l.local_ix_min as int;
    lemma_quiet_before(l, s, lo, x);
    if u < x - 1 {
        law_quiet_sweep_is_at_rest(l, s, x - 1, u, v, t);
    } else {
        let g = l.base.grid();
        lemma_quiet_column(l, s, u, l.local_iy_min as int, l.local_iy_max + 1, v);
        lemma_heading_index(g, u, v, t);
        lemma_heading_index(g, u, v, g.nt - 1);
        lemma_heading_index(g, u, v, 0);
        lemma_quiet_cell(l.base.model(), s, v * g.nx + u, g.nt, t);
    }
}

/// The cells that are made costly around walls are exactly those of the window that lie more
/// than `near` and at most `far` cells from the nearest wall, and none gets cheaper.
pub proof fn law_only_the_band_is_raised(
    l: ValueIteratorLocal,
    d: Seq<u16>,
    near: u16,
    far: int,
    cost: u64,
    i: int,
)
    requires
        0 <= i < l.base.states@.len(),
    ensures
        ({
            let old = l.base.states@[i];
            let new = inflated(l, d, near, far, cost)[i];
            let off = d[old.iy * l.base.cell_num_x + old.ix];
            let band = l.covers(old.ix as int, old.iy as int) && near < off && off <= far;
            &&& inflated(l, d, near, far, cost).len() == l.base.states@.len()
            &&& new == (State { local_penalty: new.local_penalty, ..old })
            &&& new.local_penalty >= old.local_penalty
            &&& !band ==> new == old
            &&& band ==> new.local_penalty >= cost
            &&& new.local_penalty == old.local_penalty || new.local_penalty == cost
        }),
{
}

} // verus!
