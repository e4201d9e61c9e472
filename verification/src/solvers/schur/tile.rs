//! The small value iterator that solves one tile's domain.
use vstd::prelude::*;

use crate::grid::{
    lemma_decode, lemma_encode, lemma_index_bound, on_axis, on_grid, t_of, to_index_raw, x_of,
    y_of,
};
use crate::model::Grid;
use crate::params::{PROB_BASE, REACH_THRESH};
use crate::state::State;
use crate::value_iterator::{grid_of, ValueIterator};

verus! {

/// The states of one tile's domain, a square of `side` cells.
///
/// Unreached states start at `REACH_THRESH`, low enough for sums of costs not to
/// overflow a machine word.
pub struct TileVi {
    pub states: Vec<State>,
    pub side: i32,
    pub nt: i32,
}

/// A state of a tile before the tile is laid over the map.
pub open spec fn blank_state(lx: int, ly: int, it: int) -> State {
    State {
        total_cost: REACH_THRESH,
        penalty: PROB_BASE,
        local_penalty: 0,
        ix: lx as i32,
        iy: ly as i32,
        it: it as i32,
        free: false,
        final_state: false,
        optimal_action: None,
    }
}

/// A state of a tile laid over the map `s` with its corner at `(x0, y0)`: free and
/// penalised as the map's state there, with no value yet. Outside the map nothing
/// is free.
pub open spec fn map_state(
    g: Grid,
    s: Seq<State>,
    x0: int,
    y0: int,
    lx: int,
    ly: int,
    it: int,
) -> State {
    let b = blank_state(lx, ly, it);
    if on_axis(x0 + lx, g.nx) && on_axis(y0 + ly, g.ny) {
        let src = s[g.at(x0 + lx, y0 + ly, it)];
        State { free: src.free, penalty: src.penalty, ..b }
    } else {
        b
    }
}

/// The states of a blank tile.
pub open spec fn blank_tile(tg: Grid) -> Seq<State> {
    Seq::new(
        tg.len() as nat,
        |i: int| blank_state(x_of(i, tg.nx, tg.nt), y_of(i, tg.nx, tg.nt), t_of(i, tg.nt)),
    )
}

/// The states of a tile laid over the map `s` with its corner at `(x0, y0)`.
pub open spec fn laid_over(tg: Grid, g: Grid, s: Seq<State>, x0: int, y0: int) -> Seq<State> {
    Seq::new(
        tg.len() as nat,
        |i: int|
            map_state(
                g,
                s,
                x0,
                y0,
                x_of(i, tg.nx, tg.nt),
                y_of(i, tg.nx, tg.nt),
                t_of(i, tg.nt),
            ),
    )
}

/// A state without value, goal or policy.
pub open spec fn without_value(s: State) -> State {
    State { total_cost: REACH_THRESH, final_state: false, optimal_action: None, ..s }
}

impl TileVi {
    /// The lattice of the tile's domain.
    pub open spec fn grid(self) -> Grid {
        grid_of(self.side, self.side, self.nt)
    }

    pub open spec fn wf(self) -> bool {
        &&& self.grid().wf()
        &&& self.grid().located(self.states@)
    }

    /// A blank tile.
    pub fn new(src: &ValueIterator, side: i32) -> (r: TileVi)
        requires
            grid_of(side, side, src.cell_num_t).wf(),
        ensures
            r.wf(),
            r.side == side,
            r.nt == src.cell_num_t,
            r.states@ =~= blank_tile(r.grid()),
    {
        let nt: i32 = src.cell_num_t;
        let ghost tg = grid_of(side, side, nt);
        let mut states: Vec<State> = Vec::new();
        let mut iy: i32 = 0;
        assert(0 * side * nt == 0) by (nonlinear_arith);
        while iy < side
            invariant
                0 <= iy <= side,
                tg == grid_of(side, side, nt),
                tg.wf(),
                states@.len() == iy * side * nt,
                forall|i: int|
                    0 <= i < states@.len() ==> #[trigger] states@[i] == blank_state(
                        x_of(i, side as int, nt as int),
                        y_of(i, side as int, nt as int),
                        t_of(i, nt as int),
                    ),
            decreases side - iy,
        {
            let mut ix: i32 = 0;
            while ix < side
                invariant
                    0 <= iy < side,
                    0 <= ix <= side,
                    0 <= nt,
                    states@.len() == (iy * side + ix) * nt,
                    forall|i: int|
                        0 <= i < states@.len() ==> #[trigger] states@[i] == blank_state(
                            x_of(i, side as int, nt as int),
                            y_of(i, side as int, nt as int),
                            t_of(i, nt as int),
                        ),
                decreases side - ix,
            {
                let mut it: i32 = 0;
                while it < nt
                    invariant
                        0 <= iy < side,
                        0 <= ix < side,
                        0 <= it <= nt,
                        states@.len() == (iy * side + ix) * nt + it,
                        forall|i: int|
                            0 <= i < states@.len() ==> #[trigger] states@[i] == blank_state(
                                x_of(i, side as int, nt as int),
                                y_of(i, side as int, nt as int),
                                t_of(i, nt as int),
                            ),
                    decreases nt - it,
                {
                    proof {
                        lemma_decode(ix as int, iy as int, it as int, side as int, nt as int);
                    }
                    states.push(
                        State {
                            total_cost: REACH_THRESH,
                            penalty: PROB_BASE,
                            local_penalty: 0,
                            ix,
                            iy,
                            it,
                            free: false,
                            final_state: false,
                            optimal_action: None,
                        },
                    );
                    it += 1;
                }
                proof {
                    assert((iy * side + ix) * nt + nt == (iy * side + (ix + 1)) * nt)
                        by (nonlinear_arith);
                }
                ix += 1;
            }
            proof {
                assert((iy * side + side) * nt == (iy + 1) * side * nt) by (nonlinear_arith);
            }
            iy += 1;
        }
        proof {
            assert forall|i: int| 0 <= i < states@.len() implies tg.located_at(
                #[trigger] states@[i],
                i,
            ) by {
                lemma_encode(i, side as int, side as int, nt as int);
            }
        }
        TileVi { states, side, nt }
    }

    /// Lays the tile over the map with its corner at `(x0, y0)`; values, goals and
    /// policies are gone afterwards.
    pub fn hydrate(&mut self, src: &ValueIterator, x0: i32, y0: i32)
        requires
            old(self).wf(),
            src.wf(),
            src.cell_num_t == old(self).nt,
            i32::MIN <= x0 <= i32::MAX - old(self).side,
            i32::MIN <= y0 <= i32::MAX - old(self).side,
        ensures
            final(self).wf(),
            final(self).side == old(self).side,
            final(self).nt == old(self).nt,
            final(self).states@ =~= laid_over(
                old(self).grid(),
                src.grid(),
                src.states@,
                x0 as int,
                y0 as int,
            ),
    {
        let side: i32 = self.side;
        let nt: i32 = self.nt;
        let ghost tg = self.grid();
        let ghost g = src.grid();
        let ghost goal = laid_over(tg, g, src.states@, x0 as int, y0 as int);
        let mut ly: i32 = 0;
        assert(0 * side * nt == 0) by (nonlinear_arith);
        while ly < side
            invariant
                0 <= ly <= side,
                self.side == side,
                self.nt == nt,
                tg == grid_of(side, side, nt),
                tg.wf(),
                self.wf(),
                src.wf(),
                g == src.grid(),
                src.cell_num_t == nt,
                goal == laid_over(tg, g, src.states@, x0 as int, y0 as int),
                i32::MIN <= x0 <= i32::MAX - side,
                i32::MIN <= y0 <= i32::MAX - side,
                forall|i: int|
                    0 <= i < ly * side * nt && i < tg.len() ==> #[trigger] self.states@[i]
                        == goal[i],
            decreases side - ly,
        {
            let gy: i32 = y0 + ly;
            let mut lx: i32 = 0;
            while lx < side
                invariant
                    0 <= ly < side,
                    0 <= lx <= side,
                    self.side == side,
                    self.nt == nt,
                    tg == grid_of(side, side, nt),
                    tg.wf(),
                    self.wf(),
                    src.wf(),
                    g == src.grid(),
                    src.cell_num_t == nt,
                    goal == laid_over(tg, g, src.states@, x0 as int, y0 as int),
                    i32::MIN <= x0 <= i32::MAX - side,
                    gy == y0 + ly,
                    forall|i: int|
                        0 <= i < (ly * side + lx) * nt && i < tg.len()
                            ==> #[trigger] self.states@[i] == goal[i],
                decreases side - lx,
            {
                let gx: i32 = x0 + lx;
                let in_map: bool = gx >= 0 && gx < src.cell_num_x && gy >= 0 && gy
                    < src.cell_num_y;
                let mut it: i32 = 0;
                while it < nt
                    invariant
                        0 <= ly < side,
                        0 <= lx < side,
                        0 <= it <= nt,
                        self.side == side,
                        self.nt == nt,
                        tg == grid_of(side, side, nt),
                        tg.wf(),
                        self.wf(),
                        src.wf(),
                        g == src.grid(),
                        src.cell_num_t == nt,
                        goal == laid_over(tg, g, src.states@, x0 as int, y0 as int),
                        gx == x0 + lx,
                        gy == y0 + ly,
                        in_map == (on_axis(gx as int, g.nx) && on_axis(gy as int, g.ny)),
                        forall|i: int|
                            0 <= i < (ly * side + lx) * nt + it && i < tg.len()
                                ==> #[trigger] self.states@[i] == goal[i],
                    decreases nt - it,
                {
                    let idx: usize = self.index(lx, ly, it);
                    let mut s: State = State {
                        total_cost: REACH_THRESH,
                        penalty: PROB_BASE,
                        local_penalty: 0,
                        ix: lx,
                        iy: ly,
                        it,
                        free: false,
                        final_state: false,
                        optimal_action: None,
                    };
                    if in_map {
                        let from: usize = src.to_index(gx, gy, it) as usize;
                        s.free = src.states[from].free;
                        s.penalty = src.states[from].penalty;
                    }
                    proof {
                        lemma_decode(lx as int, ly as int, it as int, side as int, nt as int);
                        assert(goal[idx as int] == s);
                    }
                    self.states.set(idx, s);
                    it += 1;
                }
                proof {
                    assert((ly * side + lx) * nt + nt == (ly * side + (lx + 1)) * nt)
                        by (nonlinear_arith);
                }
                lx += 1;
            }
            proof {
                assert((ly * side + side) * nt == (ly + 1) * side * nt) by (nonlinear_arith);
            }
            ly += 1;
        }
    }

    /// Index of a state of the domain.
    pub fn index(&self, lx: i32, ly: i32, it: i32) -> (r: usize)
        requires
            self.wf(),
            on_grid(
                lx as int,
                ly as int,
                it as int,
                self.side as int,
                self.side as int,
                self.nt as int,
            ),
        ensures
            r == self.grid().at(lx as int, ly as int, it as int),
            r < self.states.len(),
    {
        proof {
            let g = self.grid();
            lemma_index_bound(lx as int, ly as int, it as int, g.nx, g.ny, g.nt);
            assert(g.nx * (ly + 1) * g.nt <= g.nx * g.ny * g.nt) by (nonlinear_arith)
                requires
                    0 <= g.nx,
                    0 <= g.nt,
                    ly + 1 <= g.ny,
            ;
        }
        to_index_raw(lx, ly, it, self.side, self.nt) as usize
    }

    /// Forgets values, goals and policies.
    pub fn reset_values(&mut self)
        requires
            old(self).wf(),
        ensures
            final(self).wf(),
            final(self).side == old(self).side,
            final(self).nt == old(self).nt,
            final(self).states@ =~= old(self).states@.map_values(|s: State| without_value(s)),
    {
        let ghost s0 = self.states@;
        let mut i: usize = 0;
        while i < self.states.len()
            invariant
                self.wf(),
                self.side == old(self).side,
                self.nt == old(self).nt,
                s0 == old(self).states@,
                i <= self.states@.len() == s0.len(),
                forall|j: int| 0 <= j < i ==> #[trigger] self.states@[j] == without_value(s0[j]),
                forall|j: int| i <= j < s0.len() ==> #[trigger] self.states@[j] == s0[j],
            decreases self.states.len() - i,
        {
            let mut s: State = self.states[i];
            s.total_cost = REACH_THRESH;
            s.final_state = false;
            s.optimal_action = None;
            assert(self.grid().located_at(self.states@[i as int], i as int));
            self.states.set(i, s);
            i += 1;
        }
    }

    /// The value of a state of the domain.
    pub fn value(&self, lx: i32, ly: i32, it: i32) -> (r: u64)
        requires
            self.wf(),
            on_grid(
                lx as int,
                ly as int,
                it as int,
                self.side as int,
                self.side as int,
                self.nt as int,
            ),
        ensures
            r == self.states@[self.grid().at(lx as int, ly as int, it as int)].total_cost,
    {
        let i: usize = self.index(lx, ly, it);
        self.states[i].total_cost
    }
}

/// A tile shows the part of the map that it lies on: each of its states is free where the
/// map's is and has its penalty, is not free off the map, and has no value yet.
pub proof fn law_tile_shows_the_map(
    tg: Grid,
    g: Grid,
    s: Seq<State>,
    x0: int,
    y0: int,
    lx: int,
    ly: int,
    it: int,
)
    requires
        tg.wf(),
        on_grid(lx, ly, it, tg.nx, tg.ny, tg.nt),
    ensures
        ({
            let new = laid_over(tg, g, s, x0, y0)[tg.at(lx, ly, it)];
            let (x, y) = (x0 + lx, y0 + ly);
            let old = s[g.at(x, y, it)];
            let here = 0 <= x < g.nx && 0 <= y < g.ny;
            &&& new.ix == lx && new.iy == ly && new.it == it
            &&& here ==> new.free == old.free && new.penalty == old.penalty
            &&& !here ==> !new.free
            &&& new.total_cost == REACH_THRESH && new.local_penalty == 0
            &&& !new.final_state && new.optimal_action is None
        }),
{
    crate::grid::lemma_decode(lx, ly, it, tg.nx, tg.nt);
    crate::grid::lemma_index_bound(lx, ly, it, tg.nx, tg.ny, tg.nt);
}

} // verus!
