//! Reading a solved field: policies, starts, rollouts, and acting under uncertainty.
use vstd::prelude::*;

use std::collections::HashMap;

use crate::grid::{lemma_index_bound, on_axis, on_grid};
use crate::model::Grid;
use crate::params::MAX_COST;
pub use crate::path::{densify, PathPose};
pub use crate::qmdp::{qmdp_decide, QmdpDecision};
use crate::state::{updatable, State};
use crate::transition::floor_div;
use crate::value_iterator::ValueIterator;

verus! {

/// How a rollout ended.
#[derive(Clone, Copy, Debug, PartialEq, Eq, Structural)]
pub enum RolloutStatus {
    /// It entered the goal.
    ReachedGoal,
    /// There is no policy: the state is unreachable or occupied.
    NoAction,
    /// It left the map.
    OutOfMap,
    /// It came back to one state too often.
    LoopDetected,
    /// It used up its steps.
    StepLimit,
}

/// How often a rollout may act in one state.
pub const REVISIT_LIMIT: u32 = 8;

/// A solved field, as far as a planner reads it.
pub trait PolicyView: Sized {
    /// The field can be read.
    spec fn readable(&self) -> bool;

    /// The lattice that the field lies on.
    spec fn lattice(&self) -> Grid;

    /// `(ix, iy, it)` is a goal. Only asked of states of the lattice.
    spec fn goal_state(&self, ix: int, iy: int, it: int) -> bool;

    /// The policy in `(ix, iy, it)`. Only asked of states of the lattice.
    spec fn policy(&self, ix: int, iy: int, it: int) -> Option<usize>;

    /// The value of `(ix, iy, it)`. Only asked of states of the lattice.
    spec fn cost_to_go(&self, ix: int, iy: int, it: int) -> u64;

    /// The states of the lattice can be counted.
    proof fn lemma_countable(&self)
        requires
            self.readable(),
        ensures
            countable(self.lattice()),
    ;

    /// Whether the field can be read.
    fn is_readable(&self) -> (r: bool)
        ensures
            r == self.readable(),
    ;

    /// Numbers of columns, rows and headings.
    fn cell_num(&self) -> (r: (i32, i32, i32))
        requires
            self.readable(),
        ensures
            r.0 == self.lattice().nx,
            r.1 == self.lattice().ny,
            r.2 == self.lattice().nt,
    ;

    /// Whether `(ix, iy, it)` is a goal.
    fn is_final(&self, ix: i32, iy: i32, it: i32) -> (r: bool)
        requires
            self.readable(),
        ensures
            r == (on_lattice(self.lattice(), ix as int, iy as int, it as int)
                && self.goal_state(ix as int, iy as int, it as int)),
    ;

    /// The best action in `(ix, iy, it)`, if there is a policy.
    fn action_index(&self, ix: i32, iy: i32, it: i32) -> (r: Option<usize>)
        requires
            self.readable(),
        ensures
            r == if on_lattice(self.lattice(), ix as int, iy as int, it as int) {
                self.policy(ix as int, iy as int, it as int)
            } else {
                None
            },
    ;

    /// The value of `(ix, iy, it)`; `MAX_COST` off the map.
    fn value_at(&self, ix: i32, iy: i32, it: i32) -> (r: u64)
        requires
            self.readable(),
        ensures
            r == if on_lattice(self.lattice(), ix as int, iy as int, it as int) {
                self.cost_to_go(ix as int, iy as int, it as int)
            } else {
                MAX_COST
            },
    ;
}

/// The states of a lattice can be counted.
pub open spec fn countable(g: Grid) -> bool {
    &&& 0 <= g.nx <= i32::MAX
    &&& 0 <= g.ny <= i32::MAX
    &&& 0 <= g.nt <= i32::MAX
    &&& g.len() <= usize::MAX
}

/// `(ix, iy, it)` is a state of the lattice.
pub open spec fn on_lattice(g: Grid, ix: int, iy: int, it: int) -> bool {
    on_grid(ix, iy, it, g.nx, g.ny, g.nt)
}

/// Whether the cell `(ix, iy)` is on the map.
pub fn in_map_area(ix: i32, iy: i32, nx: i32, ny: i32) -> (r: bool)
    ensures
        r == (on_axis(ix as int, nx as int) && on_axis(iy as int, ny as int)),
{
    ix >= 0 && ix < nx && iy >= 0 && iy < ny
}

fn is_on_lattice(ix: i32, iy: i32, it: i32, nx: i32, ny: i32, nt: i32) -> (r: bool)
    ensures
        r == on_grid(ix as int, iy as int, it as int, nx as int, ny as int, nt as int),
{
    in_map_area(ix, iy, nx, ny) && it >= 0 && it < nt
}

impl ValueIterator {
    /// The state at `(ix, iy, it)`.
    pub open spec fn state_at(self, ix: int, iy: int, it: int) -> State {
        self.states@[self.grid().at(ix, iy, it)]
    }
}

impl PolicyView for ValueIterator {
    open spec fn readable(&self) -> bool {
        self.wf()
    }

    open spec fn lattice(&self) -> Grid {
        self.grid()
    }

    open spec fn goal_state(&self, ix: int, iy: int, it: int) -> bool {
        self.state_at(ix, iy, it).final_state
    }

    open spec fn policy(&self, ix: int, iy: int, it: int) -> Option<usize> {
        if updatable(self.state_at(ix, iy, it)) {
            self.state_at(ix, iy, it).optimal_action
        } else {
            None
        }
    }

    open spec fn cost_to_go(&self, ix: int, iy: int, it: int) -> u64 {
        self.state_at(ix, iy, it).total_cost
    }

    proof fn lemma_countable(&self) {
    }

    fn is_readable(&self) -> (r: bool) {
        self.is_usable()
    }

    fn cell_num(&self) -> (r: (i32, i32, i32)) {
        (self.cell_num_x, self.cell_num_y, self.cell_num_t)
    }

    fn is_final(&self, ix: i32, iy: i32, it: i32) -> (r: bool) {
        if is_on_lattice(ix, iy, it, self.cell_num_x, self.cell_num_y, self.cell_num_t) {
            self.states[self.to_index(ix, iy, it) as usize].final_state
        } else {
            false
        }
    }

    fn action_index(&self, ix: i32, iy: i32, it: i32) -> (r: Option<usize>) {
        if !is_on_lattice(ix, iy, it, self.cell_num_x, self.cell_num_y, self.cell_num_t) {
            return None;
        }
        let s: &State = &self.states[self.to_index(ix, iy, it) as usize];
        if !s.free || s.final_state {
            return None;
        }
        s.optimal_action
    }

    fn value_at(&self, ix: i32, iy: i32, it: i32) -> (r: u64) {
        if !is_on_lattice(ix, iy, it, self.cell_num_x, self.cell_num_y, self.cell_num_t) {
            return MAX_COST;
        }
        self.states[self.to_index(ix, iy, it) as usize].total_cost
    }
}

/// A field without its states: for every state its value, and its best action or -1.
pub struct RamSink {
    pub cells: Vec<(u64, i32)>,
}

impl RamSink {
    /// A field of `n` states that nothing is known of.
    pub fn new(n: usize) -> (r: RamSink)
        ensures
            r.cells@ == Seq::new(n as nat, |i: int| (MAX_COST, -1i32)),
    {
        let mut cells: Vec<(u64, i32)> = Vec::new();
        let mut i: usize = 0;
        while i < n
            invariant
                i <= n,
                cells@.len() == i,
                forall|k: int| 0 <= k < i ==> #[trigger] cells@[k] == (MAX_COST, -1i32),
            decreases n - i,
        {
            cells.push((MAX_COST, -1));
            i += 1;
        }
        assert(cells@ =~= Seq::new(n as nat, |i: int| (MAX_COST, -1i32)));
        RamSink { cells }
    }
}

/// What is kept of a state: nothing of an unreached one, only the value of a goal.
pub open spec fn kept(s: State) -> (u64, i32) {
    if s.total_cost >= MAX_COST || !s.free {
        (MAX_COST, -1i32)
    } else if s.final_state {
        (s.total_cost, -1i32)
    } else {
        match s.optimal_action {
            Some(a) => (s.total_cost, a as i32),
            None => (s.total_cost, -1i32),
        }
    }
}

impl RamSink {
    /// Keeps what a planner needs of a field.
    pub fn store(&mut self, vi: &ValueIterator)
        requires
            vi.wf(),
            vi.actions@.len() <= i32::MAX,
        ensures
            final(self).cells@ == vi.states@.map_values(|s: State| kept(s)),
    {
        let mut cells: Vec<(u64, i32)> = Vec::new();
        let mut i: usize = 0;
        while i < vi.states.len()
            invariant
                vi.wf(),
                vi.actions@.len() <= i32::MAX,
                i <= vi.states@.len(),
                cells@.len() == i,
                forall|k: int| 0 <= k < i ==> #[trigger] cells@[k] == kept(vi.states@[k]),
            decreases vi.states.len() - i,
        {
            let s: &State = &vi.states[i];
            let c: (u64, i32) = if s.total_cost >= MAX_COST || !s.free {
                (MAX_COST, -1)
            } else if s.final_state {
                (s.total_cost, -1)
            } else {
                match s.optimal_action {
                    Some(a) => (s.total_cost, a as i32),
                    None => (s.total_cost, -1),
                }
            };
            cells.push(c);
            i += 1;
        }
        self.cells = cells;
        assert(self.cells@ =~= vi.states@.map_values(|s: State| kept(s)));
    }
}

/// The policy of a stored field.
pub struct CompactPolicy<'a> {
    pub sink: &'a RamSink,
    pub cell_num_x: i32,
    pub cell_num_y: i32,
    pub cell_num_t: i32,
}

impl<'a> CompactPolicy<'a> {
    /// The policy of the stored field `sink` on a lattice of the given size.
    pub fn new(sink: &'a RamSink, cell_num: (i32, i32, i32)) -> (r: CompactPolicy<'a>)
        ensures
            r.sink == sink,
            r.cell_num_x == cell_num.0,
            r.cell_num_y == cell_num.1,
            r.cell_num_t == cell_num.2,
    {
        CompactPolicy {
            sink,
            cell_num_x: cell_num.0,
            cell_num_y: cell_num.1,
            cell_num_t: cell_num.2,
        }
    }

    /// What is kept of `(ix, iy, it)`.
    pub open spec fn entry(self, ix: int, iy: int, it: int) -> (u64, i32) {
        self.sink.cells@[self.lattice().at(ix, iy, it)]
    }

    fn read(&self, ix: i32, iy: i32, it: i32) -> (r: (u64, i32))
        requires
            self.readable(),
        ensures
            r == if on_lattice(self.lattice(), ix as int, iy as int, it as int) {
                self.entry(ix as int, iy as int, it as int)
            } else {
                (MAX_COST, -1i32)
            },
    {
        let (nx, ny, nt) = (self.cell_num_x, self.cell_num_y, self.cell_num_t);
        if !is_on_lattice(ix, iy, it, nx, ny, nt) {
            return (MAX_COST, -1);
        }
        proof {
            let g = self.lattice();
            lemma_index_bound(ix as int, iy as int, it as int, g.nx, g.ny, g.nt);
            assert(self.sink.cells@.len() == self.sink.cells.len());
        }
        self.sink.cells[wide_index(ix, iy, it, nx, ny, nt)]
    }
}

/// Index of the state `(ix, iy, it)` of a lattice that may have more states than an
/// `i32` counts.
fn wide_index(ix: i32, iy: i32, it: i32, nx: i32, ny: i32, nt: i32) -> (r: usize)
    requires
        on_grid(ix as int, iy as int, it as int, nx as int, ny as int, nt as int),
        nx * ny * nt <= usize::MAX,
    ensures
        r == (Grid { nx: nx as int, ny: ny as int, nt: nt as int }).at(
            ix as int,
            iy as int,
            it as int,
        ),
        r < nx * ny * nt,
{
    proof {
        lemma_index_bound(ix as int, iy as int, it as int, nx as int, ny as int, nt as int);
        assert(0 <= iy * nx) by (nonlinear_arith)
            requires
                0 <= iy,
                0 <= nx,
        ;
        let c = iy * nx + ix;
        assert(c <= c * nt && 0 <= c * nt) by (nonlinear_arith)
            requires
                0 <= c,
                1 <= nt,
        ;
    }
    (iy as usize * nx as usize + ix as usize) * nt as usize + it as usize
}

impl<'a> PolicyView for CompactPolicy<'a> {
    open spec fn readable(&self) -> bool {
        countable(self.lattice()) && self.sink.cells@.len() == self.lattice().len()
    }

    open spec fn lattice(&self) -> Grid {
        Grid {
            nx: self.cell_num_x as int,
            ny: self.cell_num_y as int,
            nt: self.cell_num_t as int,
        }
    }

    open spec fn goal_state(&self, ix: int, iy: int, it: int) -> bool {
        self.entry(ix, iy, it).0 == 0
    }

    open spec fn policy(&self, ix: int, iy: int, it: int) -> Option<usize> {
        let (v, a) = self.entry(ix, iy, it);
        if v == 0 || v >= MAX_COST || a < 0 {
            None
        } else {
            Some(a as usize)
        }
    }

    open spec fn cost_to_go(&self, ix: int, iy: int, it: int) -> u64 {
        self.entry(ix, iy, it).0
    }

    proof fn lemma_countable(&self) {
    }

    fn is_readable(&self) -> (r: bool) {
        let (nx, ny, nt) = (self.cell_num_x, self.cell_num_y, self.cell_num_t);
        if nx < 0 || ny < 0 || nt < 0 {
            return false;
        }
        assert(0 <= nx * ny <= 0x7fff_ffff * 0x7fff_ffff) by (nonlinear_arith)
            requires
                0 <= nx <= 0x7fff_ffff,
                0 <= ny <= 0x7fff_ffff,
        ;
        let plane: u64 = nx as u64 * ny as u64;
        assert(0 <= plane * nt <= 0x7fff_ffff * 0x7fff_ffff * 0x7fff_ffff) by (nonlinear_arith)
            requires
                0 <= plane <= 0x7fff_ffff * 0x7fff_ffff,
                0 <= nt <= 0x7fff_ffff,
        ;
        self.sink.cells.len() as u128 == plane as u128 * nt as u128
    }

    fn cell_num(&self) -> (r: (i32, i32, i32)) {
        (self.cell_num_x, self.cell_num_y, self.cell_num_t)
    }

    fn is_final(&self, ix: i32, iy: i32, it: i32) -> (r: bool) {
        self.read(ix, iy, it).0 == 0
    }

    fn action_index(&self, ix: i32, iy: i32, it: i32) -> (r: Option<usize>) {
        let (v, a) = self.read(ix, iy, it);
        if v == 0 || v >= MAX_COST || a < 0 {
            return None;
        }
        Some(a as usize)
    }

    fn value_at(&self, ix: i32, iy: i32, it: i32) -> (r: u64) {
        self.read(ix, iy, it).0
    }
}

/// A field whose goals cost nothing, where nothing else is free of cost, and where
/// exactly the reached states have a policy.
pub open spec fn well_solved(vi: ValueIterator) -> bool {
    forall|i: int|
        0 <= i < vi.states@.len() ==> {
            let s = #[trigger] vi.states@[i];
            &&& s.final_state ==> s.free
            &&& s.final_state <==> s.total_cost == 0
            &&& !s.free ==> s.total_cost == MAX_COST
            &&& s.total_cost <= MAX_COST
            &&& updatable(s) ==> (s.total_cost < MAX_COST <==> s.optimal_action is Some)
        }
}

/// A stored field gives the same goals, policy and values as the field itself.
pub proof fn law_stored_field_reads_the_same(
    vi: ValueIterator,
    c: CompactPolicy,
    ix: int,
    iy: int,
    it: int,
)
    requires
        vi.wf(),
        well_solved(vi),
        vi.actions@.len() <= i32::MAX,
        c.lattice() == vi.lattice(),
        c.sink.cells@ == vi.states@.map_values(|s: State| kept(s)),
        on_lattice(vi.lattice(), ix, iy, it),
    ensures
        c.readable(),
        c.goal_state(ix, iy, it) == vi.goal_state(ix, iy, it),
        c.policy(ix, iy, it) == vi.policy(ix, iy, it),
        c.cost_to_go(ix, iy, it) == vi.cost_to_go(ix, iy, it),
{
    let g = vi.grid();
    lemma_index_bound(ix, iy, it, g.nx, g.ny, g.nt);
    let s = vi.states@[g.at(ix, iy, it)];
    assert(c.entry(ix, iy, it) == kept(s));
    if updatable(s) && s.optimal_action is Some {
        assert(s.optimal_action->0 < vi.actions@.len());
    }
}

/// The id of the best action in `(ix, iy, it)`, or -1 where there is no policy.
pub fn optimal_action_at(vi: &ValueIterator, ix: i32, iy: i32, it: i32) -> (r: i32)
    requires
        vi.wf(),
    ensures
        r == if on_lattice(vi.lattice(), ix as int, iy as int, it as int) {
            match vi.policy(ix as int, iy as int, it as int) {
                Some(a) => vi.actions@[a as int].id,
                None => -1i32,
            }
        } else {
            -1i32
        },
{
    if ix < 0 || iy < 0 || it < 0 || ix >= vi.cell_num_x || iy >= vi.cell_num_y || it
        >= vi.cell_num_t {
        return -1;
    }
    let i: usize = vi.to_index(ix, iy, it) as usize;
    let s: &State = &vi.states[i];
    assert(vi.states@[i as int] == *s);
    if !s.free || s.final_state {
        return -1;
    }
    match s.optimal_action {
        Some(a) => vi.actions[a].id,
        None => -1,
    }
}

/// The heading bin of `t` whole degrees, where `nt` headings share the circle.
pub open spec fn heading_bin(t: int, nt: int) -> int {
    let d = if t + 36000 >= 0 {
        (t + 36000) % 360
    } else {
        -((-(t + 36000)) % 360)
    };
    d / (360int / nt)
}

/// The heading bin of `t` whole degrees. Degrees far below zero have none: the result is
/// negative.
pub fn heading_of(t: i32, nt: i32) -> (r: i32)
    requires
        1 <= nt <= 360,
        t <= i32::MAX - 36000,
    ensures
        r == heading_bin(t as int, nt as int),
{
    let step: i32 = 360 / nt;
    proof {
        assert(1 <= 360int / nt as int <= 360) by (nonlinear_arith)
            requires
                1 <= nt <= 360,
        ;
    }
    let u: i32 = t + 36000;
    if u >= 0 {
        let d: i32 = u % 360;
        d / step
    } else {
        let m: i64 = -(u as i64);
        let d: i64 = m % 360;
        let q: i64 = (d + (step as i64 - 1)) / step as i64;
        proof {
            let s = step as int;
            vstd::arithmetic::div_mod::lemma_fundamental_div_mod(d + s - 1, s);
            vstd::arithmetic::div_mod::lemma_mod_bound(d + s - 1, s);
            let r = (d + s - 1) % s;
            assert(-d == s * (-q) + (s - 1 - r)) by (nonlinear_arith)
                requires
                    d + s - 1 == s * q + r,
            ;
            vstd::arithmetic::div_mod::lemma_fundamental_div_mod_converse(
                -d as int,
                s,
                -q as int,
                s - 1 - r,
            );
            assert(q <= 720) by (nonlinear_arith)
                requires
                    d + s - 1 == s * q + r,
                    0 <= r,
                    0 <= d < 360,
                    1 <= s <= 360,
            ;
        }
        -(q as i32)
    }
}

/// Headings share the circle evenly: whole degrees have a heading, and there is one more
/// for every `360 / nt` degrees.
pub proof fn law_headings_cover_the_circle(t: int, nt: int)
    requires
        1 <= nt <= 360,
        360int % nt == 0,
        -36000 <= t,
    ensures
        0 <= heading_bin(t, nt) < nt,
        heading_bin(t + 360, nt) == heading_bin(t, nt),
{
    let step = 360int / nt;
    vstd::arithmetic::div_mod::lemma_fundamental_div_mod(360, nt);
    let d = (t + 36000) % 360;
    vstd::arithmetic::div_mod::lemma_mod_bound(t + 36000, 360);
    assert(step >= 1) by (nonlinear_arith)
        requires
            360 == nt * step,
            1 <= nt,
    ;
    vstd::arithmetic::div_mod::lemma_fundamental_div_mod(d, step);
    vstd::arithmetic::div_mod::lemma_mod_bound(d, step);
    let q = d / step;
    assert(0 <= q < nt) by (nonlinear_arith)
        requires
            d == step * q + d % step,
            0 <= d % step,
            d % step < step,
            0 <= d < nt * step,
            1 <= step,
    ;
    assert((t + 360 + 36000) % 360 == (t + 36000) % 360);
}

/// The cell and heading bin of a pose: coordinates from the corner of the map, in cells
/// that are `res` wide, and whole degrees.
pub fn pose_to_cell(x: i64, y: i64, t: i32, res: i64, nt: i32) -> (r: (i32, i32, i32))
    requires
        0 < res,
        1 <= nt <= 360,
        t <= i32::MAX - 36000,
        i32::MIN <= x as int / res as int <= i32::MAX,
        i32::MIN <= y as int / res as int <= i32::MAX,
    ensures
        r.0 == x as int / res as int,
        r.1 == y as int / res as int,
        r.2 == heading_bin(t as int, nt as int),
        r.0 * res <= x < (r.0 + 1) * res,
        r.1 * res <= y < (r.1 + 1) * res,
{
    proof {
        lemma_cell_borders(x as int, res as int);
        lemma_cell_borders(y as int, res as int);
    }
    let ix: i32 = floor_div(x as i128, res as i128) as i32;
    let iy: i32 = floor_div(y as i128, res as i128) as i32;
    (ix, iy, heading_of(t, nt))
}

/// The state from which a planner may start, given the one that the robot is in: has a
/// policy, or is a goal.
pub open spec fn startable<P: PolicyView>(p: P, ix: int, iy: int, it: int) -> bool {
    on_lattice(p.lattice(), ix, iy, it) && (p.policy(ix, iy, it) is Some || p.goal_state(
        ix,
        iy,
        it,
    ))
}

/// The first `n` cells, row by row, of a square of cells around `(ix, iy)`: the nearest
/// of them that a planner may start from, the first of several.
pub open spec fn nearest_start<P: PolicyView>(
    p: P,
    ix: int,
    iy: int,
    it: int,
    tol: int,
    n: int,
) -> Option<(int, int)>
    decreases n,
{
    if n <= 0 {
        None
    } else {
        let side = 2 * tol + 1;
        let (dx, dy) = ((n - 1) % side - tol, (n - 1) / side - tol);
        let before = nearest_start(p, ix, iy, it, tol, n - 1);
        if startable(p, ix + dx, iy + dy, it) {
            match before {
                Some((ox, oy)) => if dx * dx + dy * dy < ox * ox + oy * oy {
                    Some((dx, dy))
                } else {
                    before
                },
                None => Some((dx, dy)),
            }
        } else {
            before
        }
    }
}

/// The nearest cell at most `tol` rows and columns away from `(ix, iy)` that a planner
/// may start from with heading `it`.
pub fn find_plannable_start<P: PolicyView>(
    p: &P,
    ix: i32,
    iy: i32,
    it: i32,
    tol: i32,
) -> (r: Option<(i32, i32)>)
    requires
        p.readable(),
        0 <= tol <= 0x3fff_ffff,
        i32::MIN <= ix - tol,
        ix + tol <= i32::MAX,
        i32::MIN <= iy - tol,
        iy + tol <= i32::MAX,
    ensures
        match nearest_start(
            *p,
            ix as int,
            iy as int,
            it as int,
            tol as int,
            (2 * tol + 1) * (2 * tol + 1),
        ) {
            Some((dx, dy)) => r == Some(((ix + dx) as i32, (iy + dy) as i32)),
            None => r is None,
        },
{
    let side: i64 = 2 * tol as i64 + 1;
    let ghost sd = side as int;
    assert(sd * sd <= 0x7fff_ffff * 0x7fff_ffff) by (nonlinear_arith)
        requires
            1 <= sd <= 0x7fff_ffff,
    ;
    let n: i64 = side * side;
    let mut best: Option<(i32, i32)> = None;
    let mut k: i64 = 0;
    while k < n
        invariant
            p.readable(),
            0 <= tol <= 0x3fff_ffff,
            side == 2 * tol + 1,
            sd == side,
            n == side * side,
            i32::MIN <= ix - tol,
            ix + tol <= i32::MAX,
            i32::MIN <= iy - tol,
            iy + tol <= i32::MAX,
            0 <= k <= n,
            match nearest_start(*p, ix as int, iy as int, it as int, tol as int, k as int) {
                Some((dx, dy)) => best == Some((dx as i32, dy as i32)) && -tol <= dx <= tol && -tol
                    <= dy <= tol,
                None => best is None,
            },
        decreases n - k,
    {
        proof {
            vstd::arithmetic::div_mod::lemma_fundamental_div_mod(k as int, sd);
            vstd::arithmetic::div_mod::lemma_mod_bound(k as int, sd);
            assert(0 <= k as int / sd < sd) by (nonlinear_arith)
                requires
                    k as int == sd * (k as int / sd) + k as int % sd,
                    0 <= k as int % sd < sd,
                    0 <= k < sd * sd,
                    1 <= sd,
            ;
        }
        let dx: i32 = (k % side) as i32 - tol;
        let dy: i32 = (k / side) as i32 - tol;
        let ok: bool = p.action_index(ix + dx, iy + dy, it).is_some() || p.is_final(
            ix + dx,
            iy + dy,
            it,
        );
        proof {
            lemma_square(dx as int);
            lemma_square(dy as int);
        }
        if ok {
            let closer: bool = match best {
                Some((ox, oy)) => {
                    proof {
                        lemma_square(ox as int);
                        lemma_square(oy as int);
                    }
                    dx as i64 * dx as i64 + dy as i64 * (dy as i64) < ox as i64 * ox as i64 + oy
                        as i64 * oy as i64
                },
                None => true,
            };
            if closer {
                best = Some((dx, dy));
            }
        }
        k += 1;
    }
    match best {
        Some((dx, dy)) => Some((ix + dx, iy + dy)),
        None => None,
    }
}

proof fn lemma_square(d: int)
    requires
        -0x3fff_ffff <= d <= 0x3fff_ffff,
    ensures
        0 <= d * d <= 0x3fff_ffff * 0x3fff_ffff,
{
    assert(0 <= d * d <= 0x3fff_ffff * 0x3fff_ffff) by (nonlinear_arith)
        requires
            -0x3fff_ffff <= d <= 0x3fff_ffff,
    ;
}

/// The start that is found is a start, and no start within the tolerance is nearer.
pub proof fn law_start_is_nearest<P: PolicyView>(
    p: P,
    ix: int,
    iy: int,
    it: int,
    tol: int,
    dx: int,
    dy: int,
)
    requires
        0 <= tol,
        -tol <= dx <= tol,
        -tol <= dy <= tol,
        startable(p, ix + dx, iy + dy, it),
    ensures
        match nearest_start(p, ix, iy, it, tol, (2 * tol + 1) * (2 * tol + 1)) {
            Some((x, y)) => startable(p, ix + x, iy + y, it) && x * x + y * y <= dx * dx + dy * dy,
            None => false,
        },
{
    let side = 2 * tol + 1;
    let k = (dy + tol) * side + (dx + tol);
    assert(0 <= k < side * side) by (nonlinear_arith)
        requires
            k == (dy + tol) * side + (dx + tol),
            0 <= dy + tol,
            dy + tol + 1 <= side,
            0 <= dx + tol < side,
    ;
    vstd::arithmetic::div_mod::lemma_fundamental_div_mod_converse(k, side, dy + tol, dx + tol);
    lemma_nearest(p, ix, iy, it, tol, side * side, k);
}

proof fn lemma_nearest<P: PolicyView>(
    p: P,
    ix: int,
    iy: int,
    it: int,
    tol: int,
    n: int,
    k: int,
)
    requires
        0 <= tol,
        0 <= k < n,
        startable(
            p,
            ix + (k % (2 * tol + 1) - tol),
            iy + (k / (2 * tol + 1) - tol),
            it,
        ),
    ensures
        match nearest_start(p, ix, iy, it, tol, n) {
            Some((x, y)) => {
                let (dx, dy) = (k % (2 * tol + 1) - tol, k / (2 * tol + 1) - tol);
                startable(p, ix + x, iy + y, it) && x * x + y * y <= dx * dx + dy * dy
            },
            None => false,
        },
    decreases n,
{
    if k < n - 1 {
        lemma_nearest(p, ix, iy, it, tol, n - 1, k);
    } else {
        lemma_nearest_is_start(p, ix, iy, it, tol, n - 1);
    }
}

proof fn lemma_nearest_is_start<P: PolicyView>(
    p: P,
    ix: int,
    iy: int,
    it: int,
    tol: int,
    n: int,
)
    ensures
        match nearest_start(p, ix, iy, it, tol, n) {
            Some((x, y)) => startable(p, ix + x, iy + y, it),
            None => true,
        },
    decreases n,
{
    if n > 0 {
        lemma_nearest_is_start(p, ix, iy, it, tol, n - 1);
    }
}

/// What a rollout does next.
#[derive(Clone, Copy, Debug, PartialEq, Eq, Structural)]
pub enum RolloutStep {
    /// Take the action with this index.
    Act(usize),
    /// Stop.
    Stop(RolloutStatus),
}

/// A rollout on its way: how often it has acted in each state, and how many steps it has
/// used.
pub struct RolloutTrace {
    pub visits: HashMap<u64, u32>,
    pub steps: usize,
    pub max_steps: usize,
}

impl RolloutTrace {
    /// How often the rollout has come to the state with the given index.
    pub open spec fn count(self, i: u64) -> u32 {
        if self.visits@.contains_key(i) {
            self.visits@[i]
        } else {
            0
        }
    }

    /// The rollout has not come to any state too often, nor used too many steps.
    pub open spec fn wf(self) -> bool {
        &&& self.steps <= self.max_steps
        &&& forall|i: u64| #[trigger] self.count(i) <= REVISIT_LIMIT
    }

    /// What the rollout does when it stands in `(ix, iy, it)`.
    pub open spec fn next<P: PolicyView>(self, p: P, ix: int, iy: int, it: int) -> RolloutStep {
        if self.steps == self.max_steps {
            RolloutStep::Stop(RolloutStatus::StepLimit)
        } else if !on_lattice(p.lattice(), ix, iy, it) {
            RolloutStep::Stop(RolloutStatus::OutOfMap)
        } else if p.goal_state(ix, iy, it) {
            RolloutStep::Stop(RolloutStatus::ReachedGoal)
        } else {
            match p.policy(ix, iy, it) {
                None => RolloutStep::Stop(RolloutStatus::NoAction),
                Some(a) => if self.count(p.lattice().at(ix, iy, it) as u64) >= REVISIT_LIMIT {
                    RolloutStep::Stop(RolloutStatus::LoopDetected)
                } else {
                    RolloutStep::Act(a)
                },
            }
        }
    }

    /// A rollout that has not started.
    pub fn new(max_steps: usize) -> (r: RolloutTrace)
        ensures
            r.wf(),
            r.steps == 0,
            r.max_steps == max_steps,
            forall|i: u64| #[trigger] r.count(i) == 0,
    {
        let visits: HashMap<u64, u32> = HashMap::new();
        RolloutTrace { visits, steps: 0, max_steps }
    }

    /// Decides what to do in `(ix, iy, it)`, and remembers that the rollout acted there.
    pub fn step<P: PolicyView>(&mut self, p: &P, ix: i32, iy: i32, it: i32) -> (r: RolloutStep)
        requires
            old(self).wf(),
            p.readable(),
        ensures
            final(self).wf(),
            r == old(self).next(*p, ix as int, iy as int, it as int),
            final(self).max_steps == old(self).max_steps,
            r is Act ==> final(self).steps == old(self).steps + 1 && forall|i: u64| #[trigger]
                final(self).count(i) == if i == p.lattice().at(
                    ix as int,
                    iy as int,
                    it as int,
                ) {
                    old(self).count(i) + 1
                } else {
                    old(self).count(i) as int
                },
            r is Stop ==> *final(self) == *old(self),
    {
        if self.steps == self.max_steps {
            return RolloutStep::Stop(RolloutStatus::StepLimit);
        }
        let (nx, ny, nt) = p.cell_num();
        if !is_on_lattice(ix, iy, it, nx, ny, nt) {
            return RolloutStep::Stop(RolloutStatus::OutOfMap);
        }
        if p.is_final(ix, iy, it) {
            return RolloutStep::Stop(RolloutStatus::ReachedGoal);
        }
        match p.action_index(ix, iy, it) {
            None => RolloutStep::Stop(RolloutStatus::NoAction),
            Some(a) => {
                proof {
                    p.lemma_countable();
                }
                let i: u64 = wide_index(ix, iy, it, nx, ny, nt) as u64;
                let seen: u32 = match self.visits.get(&i) {
                    Some(c) => *c,
                    None => 0,
                };
                assert(seen == old(self).count(i));
                if seen >= REVISIT_LIMIT {
                    return RolloutStep::Stop(RolloutStatus::LoopDetected);
                }
                let ghost before = *self;
                self.visits.insert(i, seen + 1);
                self.steps += 1;
                proof {
                    assert forall|j: u64| #[trigger] self.count(j) == if j == i {
                        before.count(j) + 1
                    } else {
                        before.count(j) as int
                    } by {}
                    assert forall|j: u64| #[trigger] self.count(j) <= REVISIT_LIMIT by {
                        let c = before.count(j);
                    }
                }
                RolloutStep::Act(a)
            },
        }
    }
}

/// A direction lies in its heading: up to full turns, between the border where the heading
/// starts and the one where the next starts. Headings are counted in the direction of the
/// angle.
pub proof fn law_direction_lies_in_its_heading(t: int, nt: int)
    requires
        1 <= nt <= 360,
        0 <= t < 360,
    ensures
        heading_bin(t, nt) * (360int / nt) <= t < (heading_bin(t, nt) + 1) * (360int / nt),
        t > 0 ==> heading_bin(t - 360, nt) == heading_bin(t, nt),
        heading_bin(0, nt) == 0,
{
    let w = 360int / nt;
    vstd::arithmetic::div_mod::lemma_fundamental_div_mod(360, nt);
    vstd::arithmetic::div_mod::lemma_mod_bound(360, nt);
    assert(w >= 1) by (nonlinear_arith)
        requires
            360 == nt * w + 360int % nt,
            360int % nt < nt,
            1 <= nt <= 360,
    ;
    assert((t + 36000) % 360 == t);
    vstd::arithmetic::div_mod::lemma_fundamental_div_mod(t, w);
    vstd::arithmetic::div_mod::lemma_mod_bound(t, w);
    let q = t / w;
    assert(q * w <= t < (q + 1) * w) by (nonlinear_arith)
        requires
            t == w * q + t % w,
            0 <= t % w,
            t % w < w,
    ;
    vstd::arithmetic::div_mod::lemma_div_basics(w);
}

/// A start is found only where the search may look and where the policy can start, and none
/// is found only where there is none.
pub proof fn law_start_is_in_reach<P: PolicyView>(p: P, ix: int, iy: int, it: int, tol: int)
    requires
        0 <= tol,
    ensures
        match nearest_start(p, ix, iy, it, tol, (2 * tol + 1) * (2 * tol + 1)) {
            Some((x, y)) => -tol <= x <= tol && -tol <= y <= tol && startable(
                p,
                ix + x,
                iy + y,
                it,
            ),
            None => forall|dx: int, dy: int|
                -tol <= dx <= tol && -tol <= dy <= tol ==> !#[trigger] startable(
                    p,
                    ix + dx,
                    iy + dy,
                    it,
                ),
        },
        startable(p, ix, iy, it) ==> nearest_start(
            p,
            ix,
            iy,
            it,
            tol,
            (2 * tol + 1) * (2 * tol + 1),
        ) == Some((0int, 0int)),
{
    let side = 2 * tol + 1;
    let n = side * side;
    lemma_start_range(p, ix, iy, it, tol, n);
    match nearest_start(p, ix, iy, it, tol, n) {
        Some((x, y)) => {
            if startable(p, ix + 0, iy + 0, it) {
                law_start_is_nearest(p, ix, iy, it, tol, 0, 0);
                assert(x * x + y * y <= 0);
                assert(x == 0 && y == 0) by (nonlinear_arith)
                    requires
                        x * x + y * y <= 0,
                ;
            }
        },
        None => {
            assert forall|dx: int, dy: int|
                -tol <= dx <= tol && -tol <= dy <= tol implies !#[trigger] startable(
                p,
                ix + dx,
                iy + dy,
                it,
            ) by {
                if startable(p, ix + dx, iy + dy, it) {
                    law_start_is_nearest(p, ix, iy, it, tol, dx, dy);
                }
            }
            if startable(p, ix, iy, it) {
                assert(startable(p, ix + 0, iy + 0, it));
            }
        },
    }
}

proof fn lemma_start_range<P: PolicyView>(p: P, ix: int, iy: int, it: int, tol: int, n: int)
    requires
        0 <= tol,
        n <= (2 * tol + 1) * (2 * tol + 1),
    ensures
        nearest_start(p, ix, iy, it, tol, n) matches Some((x, y)) ==> -tol <= x <= tol && -tol <= y
            <= tol && startable(p, ix + x, iy + y, it),
    decreases n,
{
    if n > 0 {
        lemma_start_range(p, ix, iy, it, tol, n - 1);
        let side = 2 * tol + 1;
        let k = n - 1;
        vstd::arithmetic::div_mod::lemma_fundamental_div_mod(k, side);
        vstd::arithmetic::div_mod::lemma_mod_bound(k, side);
        let q = k / side;
        assert(0 <= q < side) by (nonlinear_arith)
            requires
                k == side * q + k % side,
                0 <= k % side,
                k % side < side,
                0 <= k < side * side,
                0 < side,
        ;
    }
}

/// What a rollout says is true of where it is, and it acts only with an action of the policy
/// in a state on the map that is no goal, that it has been in fewer than eight times, and
/// with steps left.
pub proof fn law_rollout_tells_the_truth<P: PolicyView>(
    r: RolloutTrace,
    p: P,
    ix: int,
    iy: int,
    it: int,
)
    requires
        r.wf(),
    ensures
        ({
            let here = on_lattice(p.lattice(), ix, iy, it);
            let left = r.steps < r.max_steps;
            let goal = p.goal_state(ix, iy, it);
            let seen = r.count(p.lattice().at(ix, iy, it) as u64);
            let n = r.next(p, ix, iy, it);
            &&& n == RolloutStep::Stop(RolloutStatus::StepLimit) <==> !left
            &&& n == RolloutStep::Stop(RolloutStatus::OutOfMap) <==> left && !here
            &&& n == RolloutStep::Stop(RolloutStatus::ReachedGoal) <==> left && here && goal
            &&& n == RolloutStep::Stop(RolloutStatus::NoAction) <==> left && here && !goal
                && p.policy(ix, iy, it) is None
            &&& n == RolloutStep::Stop(RolloutStatus::LoopDetected) <==> left && here && !goal
                && p.policy(ix, iy, it) is Some && seen == 8
            &&& (n matches RolloutStep::Act(a) ==> p.policy(ix, iy, it) == Some(a) && seen < 8)
        }),
{
}

proof fn lemma_cell_borders(a: int, d: int)
    requires
        0 < d,
    ensures
        (a / d) * d <= a < (a / d + 1) * d,
{
    vstd::arithmetic::div_mod::lemma_fundamental_div_mod(a, d);
    vstd::arithmetic::div_mod::lemma_mod_bound(a, d);
    let q = a / d;
    assert(q * d <= a < (q + 1) * d) by (nonlinear_arith)
        requires
            a == d * q + a % d,
            0 <= a % d,
            a % d < d,
    ;
}

} // verus!
