//! The order of states in a belief: heading by heading, each heading row by row.
use vstd::prelude::*;

use crate::grid::{lemma_cell_bound, lemma_cell_injective, on_axis, on_grid};

verus! {

/// The lattice of a belief.
#[derive(Clone, Copy, Debug, PartialEq, Eq, Structural)]
pub struct BeliefGrid {
    pub nx: i32,
    pub ny: i32,
    pub nt: i32,
}

/// Position of the state `(ix, iy, it)`.
pub open spec fn belief_index(nx: int, ny: int, ix: int, iy: int, it: int) -> int {
    (it * ny + iy) * nx + ix
}

impl BeliefGrid {
    /// Number of states.
    pub open spec fn len(self) -> int {
        self.nt * self.ny * self.nx
    }

    /// The states can be numbered with 32 bits.
    pub open spec fn wf(self) -> bool {
        &&& 0 <= self.nx
        &&& 0 <= self.ny
        &&& 0 <= self.nt
        &&& self.len() <= u32::MAX
        &&& self.nx * self.ny <= i32::MAX
    }

    /// `(ix, iy, it)` is a state.
    pub open spec fn has(self, ix: int, iy: int, it: int) -> bool {
        on_grid(ix, iy, it, self.nx as int, self.ny as int, self.nt as int)
    }

    /// Position of the state `(ix, iy, it)`.
    pub open spec fn at(self, ix: int, iy: int, it: int) -> int {
        belief_index(self.nx as int, self.ny as int, ix, iy, it)
    }
}

/// Positions are in range.
pub proof fn lemma_at(g: BeliefGrid, ix: int, iy: int, it: int)
    requires
        0 <= g.nx,
        0 <= g.ny,
        0 <= g.nt,
        g.has(ix, iy, it),
    ensures
        0 <= it * g.ny + iy < g.nt * g.ny,
        0 <= g.at(ix, iy, it) < g.len(),
        0 <= it * g.ny,
        0 <= (it * g.ny + iy) * g.nx,
        0 <= iy * g.nx + ix < g.nx * g.ny,
        g.at(ix, iy, it) == it * (g.nx * g.ny) + (iy * g.nx + ix),
{
    lemma_cell_bound(iy, it, g.ny as int, g.nt as int);
    assert(g.ny * g.nt == g.nt * g.ny) by (nonlinear_arith);
    lemma_cell_bound(ix, it * g.ny + iy, g.nx as int, g.nt * g.ny);
    let r = it * g.ny + iy;
    assert(g.nx * (g.nt * g.ny) == g.nt * g.ny * g.nx) by (nonlinear_arith);
    assert(0 <= it * g.ny) by (nonlinear_arith)
        requires
            0 <= it,
            0 <= g.ny,
    ;
    assert(0 <= r * g.nx) by (nonlinear_arith)
        requires
            0 <= r,
            0 <= g.nx,
    ;
    lemma_cell_bound(ix, iy, g.nx as int, g.ny as int);
    assert((it * g.ny + iy) * g.nx == it * (g.nx * g.ny) + iy * g.nx) by (nonlinear_arith);
}

/// Different states have different positions.
pub proof fn lemma_at_injective(
    g: BeliefGrid,
    x1: int,
    y1: int,
    t1: int,
    x2: int,
    y2: int,
    t2: int,
)
    requires
        0 <= g.nx,
        0 <= g.ny,
        0 <= g.nt,
        g.has(x1, y1, t1),
        g.has(x2, y2, t2),
        g.at(x1, y1, t1) == g.at(x2, y2, t2),
    ensures
        x1 == x2,
        y1 == y2,
        t1 == t2,
{
    lemma_cell_injective(x1, t1 * g.ny + y1, x2, t2 * g.ny + y2, g.nx as int);
    lemma_cell_injective(y1, t1, y2, t2, g.ny as int);
}

/// Position of the state `(ix, iy, it)` in a belief `nx` columns wide and `ny` rows high.
pub fn bidx2(nx: i32, ny: i32, ix: i32, iy: i32, it: i32) -> (r: usize)
    requires
        on_axis(ix as int, nx as int),
        on_axis(iy as int, ny as int),
        0 <= it,
        (it + 1) * ny * nx <= usize::MAX,
    ensures
        r == belief_index(nx as int, ny as int, ix as int, iy as int, it as int),
        r < (it + 1) * ny * nx,
{
    proof {
        let r = it * ny + iy;
        assert(0 <= it * ny && r + 1 <= (it + 1) * ny) by (nonlinear_arith)
            requires
                r == it * ny + iy,
                0 <= it,
                0 <= iy < ny,
        ;
        assert(0 <= r * nx && r * nx + nx <= (it + 1) * ny * nx) by (nonlinear_arith)
            requires
                0 <= r,
                r + 1 <= (it + 1) * ny,
                0 <= nx,
        ;
        assert(r <= r * nx) by (nonlinear_arith)
            requires
                0 <= r,
                1 <= nx,
        ;
    }
    (it as usize * ny as usize + iy as usize) * nx as usize + ix as usize
}

impl BeliefGrid {
    /// Position of the state `(ix, iy, it)`.
    pub fn index(&self, ix: i32, iy: i32, it: i32) -> (r: usize)
        requires
            self.wf(),
            self.has(ix as int, iy as int, it as int),
        ensures
            r == self.at(ix as int, iy as int, it as int),
            r < self.len(),
    {
        proof {
            lemma_at(*self, ix as int, iy as int, it as int);
            assert((it + 1) * self.ny * self.nx <= self.nt * self.ny * self.nx) by (nonlinear_arith)
                requires
                    it + 1 <= self.nt,
                    0 <= self.ny,
                    0 <= self.nx,
            ;
        }
        bidx2(self.nx, self.ny, ix, iy, it)
    }

    /// The state at position `i`.
    pub fn decode(&self, i: u32) -> (r: (i32, i32, i32))
        requires
            self.wf(),
            i < self.len(),
        ensures
            self.has(r.0 as int, r.1 as int, r.2 as int),
            self.at(r.0 as int, r.1 as int, r.2 as int) == i,
    {
        let plane: u32 = (self.nx * self.ny) as u32;
        proof {
            lemma_decode(*self, i as int);
        }
        let it: u32 = i / plane;
        let rest: u32 = i % plane;
        let iy: u32 = rest / self.nx as u32;
        let ix: u32 = rest % self.nx as u32;
        (ix as i32, iy as i32, it as i32)
    }
}

/// Taking a position apart gives the state that stands there.
pub proof fn lemma_decode(g: BeliefGrid, i: int)
    requires
        g.wf(),
        0 <= i < g.len(),
    ensures
        0 < g.nx,
        0 < g.nx * g.ny,
        g.has(
            (i % (g.nx * g.ny)) % (g.nx as int),
            (i % (g.nx * g.ny)) / (g.nx as int),
            i / (g.nx * g.ny),
        ),
        g.at(
            (i % (g.nx * g.ny)) % (g.nx as int),
            (i % (g.nx * g.ny)) / (g.nx as int),
            i / (g.nx * g.ny),
        ) == i,
{
    let (nx, ny, nt) = (g.nx as int, g.ny as int, g.nt as int);
    let p = nx * ny;
    assert(nx > 0 && ny > 0 && nt > 0) by (nonlinear_arith)
        requires
            0 < nt * ny * nx,
            0 <= nx,
            0 <= ny,
            0 <= nt,
    ;
    assert(p > 0) by (nonlinear_arith)
        requires
            p == nx * ny,
            nx > 0,
            ny > 0,
    ;
    let (t, r) = (i / p, i % p);
    vstd::arithmetic::div_mod::lemma_fundamental_div_mod(i, p);
    vstd::arithmetic::div_mod::lemma_mod_bound(i, p);
    assert(nt * ny * nx == nt * p) by (nonlinear_arith)
        requires
            p == nx * ny,
    ;
    assert(0 <= t < nt) by (nonlinear_arith)
        requires
            i == p * t + r,
            0 <= r < p,
            0 <= i < nt * p,
    ;
    let (y, x) = (r / nx, r % nx);
    vstd::arithmetic::div_mod::lemma_fundamental_div_mod(r, nx);
    vstd::arithmetic::div_mod::lemma_mod_bound(r, nx);
    assert(0 <= y < ny) by (nonlinear_arith)
        requires
            r == nx * y + x,
            0 <= x < nx,
            0 <= r < nx * ny,
    ;
    assert((t * ny + y) * nx + x == i) by (nonlinear_arith)
        requires
            i == p * t + r,
            r == nx * y + x,
            p == nx * ny,
    ;
}

/// A state's position gives the state back.
pub proof fn law_decode_undoes_index(g: BeliefGrid, ix: int, iy: int, it: int)
    requires
        g.wf(),
        g.has(ix, iy, it),
    ensures
        ({
            let i = g.at(ix, iy, it);
            let p = g.nx * g.ny;
            &&& (i % p) % (g.nx as int) == ix
            &&& (i % p) / (g.nx as int) == iy
            &&& i / p == it
        }),
{
    lemma_at(g, ix, iy, it);
    let i = g.at(ix, iy, it);
    lemma_decode(g, i);
    let p = g.nx * g.ny;
    lemma_at_injective(g, (i % p) % (g.nx as int), (i % p) / (g.nx as int), i / p, ix, iy, it);
}

/// The cells of a row stand next to each other, then come the rows, then the headings.
pub proof fn law_columns_then_rows_then_headings(nx: int, ny: int, ix: int, iy: int, it: int)
    ensures
        belief_index(nx, ny, 0, 0, 0) == 0,
        belief_index(nx, ny, ix + 1, iy, it) == belief_index(nx, ny, ix, iy, it) + 1,
        belief_index(nx, ny, ix, iy + 1, it) == belief_index(nx, ny, ix, iy, it) + nx,
        belief_index(nx, ny, ix, iy, it + 1) == belief_index(nx, ny, ix, iy, it) + nx * ny,
{
    let c = it * ny + iy;
    assert((it + 1) * ny + iy == c + ny) by (nonlinear_arith)
        requires
            c == it * ny + iy,
    ;
    assert((c + 1) * nx == c * nx + nx && (c + ny) * nx == c * nx + nx * ny) by (nonlinear_arith);
    assert(0 * nx == 0 && 0 * ny == 0);
}

} // verus!
