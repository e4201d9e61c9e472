//! Index arithmetic of the state lattice.
//!
//! A state `(ix, iy, it)` lives at `(iy * nx + ix) * nt + it`: heading fastest,
//! then x, then y.
use vstd::prelude::*;

verus! {

/// Position of the state `(ix, iy, it)` in a lattice `nx` cells wide with `nt` headings.
pub open spec fn index3(ix: int, iy: int, it: int, nx: int, nt: int) -> int {
    (iy * nx + ix) * nt + it
}

/// `v` names a position on an axis of `n` positions.
pub open spec fn on_axis(v: int, n: int) -> bool {
    0 <= v < n
}

/// The state `(ix, iy, it)` lies on the lattice.
pub open spec fn on_grid(ix: int, iy: int, it: int, nx: int, ny: int, nt: int) -> bool {
    &&& on_axis(ix, nx)
    &&& on_axis(iy, ny)
    &&& on_axis(it, nt)
}

pub proof fn lemma_cell_bound(ix: int, iy: int, nx: int, ny: int)
    requires
        on_axis(ix, nx),
        on_axis(iy, ny),
    ensures
        0 <= iy * nx + ix < nx * ny,
        0 <= iy * nx,
{
    assert(0 <= iy * nx) by (nonlinear_arith)
        requires
            0 <= iy,
            0 <= nx,
    ;
    assert(iy * nx + nx <= nx * ny) by (nonlinear_arith)
        requires
            iy + 1 <= ny,
            0 <= nx,
    ;
}

/// States of the lattice have indices inside it.
pub proof fn lemma_index_bound(ix: int, iy: int, it: int, nx: int, ny: int, nt: int)
    requires
        on_grid(ix, iy, it, nx, ny, nt),
    ensures
        0 <= index3(ix, iy, it, nx, nt) < nx * ny * nt,
{
    lemma_cell_bound(ix, iy, nx, ny);
    let c = iy * nx + ix;
    assert(0 <= c * nt) by (nonlinear_arith)
        requires
            0 <= c,
            0 <= nt,
    ;
    assert(c * nt + nt <= nx * ny * nt) by (nonlinear_arith)
        requires
            c + 1 <= nx * ny,
            0 <= nt,
    ;
}

proof fn lemma_split_unique(q1: int, r1: int, q2: int, r2: int, n: int)
    requires
        0 <= r1 < n,
        0 <= r2 < n,
        q1 * n + r1 == q2 * n + r2,
    ensures
        q1 == q2,
        r1 == r2,
{
    assert(q1 == q2) by (nonlinear_arith)
        requires
            0 <= r1 < n,
            0 <= r2 < n,
            q1 * n + r1 == q2 * n + r2,
    ;
}

/// Two different cells of the plane have different positions.
pub proof fn lemma_cell_injective(x1: int, y1: int, x2: int, y2: int, nx: int)
    requires
        on_axis(x1, nx),
        on_axis(x2, nx),
        y1 * nx + x1 == y2 * nx + x2,
    ensures
        x1 == x2,
        y1 == y2,
{
    lemma_split_unique(y1, x1, y2, x2, nx);
}

/// Two different states of the lattice have different indices.
pub proof fn lemma_index_injective(
    x1: int,
    y1: int,
    t1: int,
    x2: int,
    y2: int,
    t2: int,
    nx: int,
    nt: int,
)
    requires
        on_axis(x1, nx),
        on_axis(x2, nx),
        on_axis(t1, nt),
        on_axis(t2, nt),
        index3(x1, y1, t1, nx, nt) == index3(x2, y2, t2, nx, nt),
    ensures
        x1 == x2,
        y1 == y2,
        t1 == t2,
{
    lemma_split_unique(y1 * nx + x1, t1, y2 * nx + x2, t2, nt);
    lemma_cell_injective(x1, y1, x2, y2, nx);
}

/// Heading of the state at index `i`.
pub open spec fn t_of(i: int, nt: int) -> int {
    i % nt
}

/// Column of the state at index `i`.
pub open spec fn x_of(i: int, nx: int, nt: int) -> int {
    (i / nt) % nx
}

/// Row of the state at index `i`.
pub open spec fn y_of(i: int, nx: int, nt: int) -> int {
    (i / nt) / nx
}

/// The index of a state tells its coordinates.
pub proof fn lemma_decode(ix: int, iy: int, it: int, nx: int, nt: int)
    requires
        on_axis(ix, nx),
        on_axis(it, nt),
    ensures
        x_of(index3(ix, iy, it, nx, nt), nx, nt) == ix,
        y_of(index3(ix, iy, it, nx, nt), nx, nt) == iy,
        t_of(index3(ix, iy, it, nx, nt), nt) == it,
{
    let i = index3(ix, iy, it, nx, nt);
    vstd::arithmetic::div_mod::lemma_fundamental_div_mod_converse(i, nt, iy * nx + ix, it);
    vstd::arithmetic::div_mod::lemma_fundamental_div_mod_converse(iy * nx + ix, nx, iy, ix);
}

/// Every index of a lattice is the index of the state with its coordinates.
pub proof fn lemma_encode(i: int, nx: int, ny: int, nt: int)
    requires
        0 <= i < nx * ny * nt,
        0 <= nx,
        0 <= ny,
        0 <= nt,
    ensures
        on_grid(x_of(i, nx, nt), y_of(i, nx, nt), t_of(i, nt), nx, ny, nt),
        index3(x_of(i, nx, nt), y_of(i, nx, nt), t_of(i, nt), nx, nt) == i,
{
    assert(nt > 0 && nx > 0 && ny > 0) by (nonlinear_arith)
        requires
            0 < nx * ny * nt,
            0 <= nx,
            0 <= ny,
            0 <= nt,
    ;
    let c = i / nt;
    vstd::arithmetic::div_mod::lemma_fundamental_div_mod(i, nt);
    vstd::arithmetic::div_mod::lemma_mod_bound(i, nt);
    vstd::arithmetic::div_mod::lemma_fundamental_div_mod(c, nx);
    vstd::arithmetic::div_mod::lemma_mod_bound(c, nx);
    assert(0 <= c < nx * ny) by (nonlinear_arith)
        requires
            i == nt * c + i % nt,
            0 <= i % nt < nt,
            0 <= i < nx * ny * nt,
            nt > 0,
    ;
    let y = c / nx;
    assert(0 <= y < ny) by (nonlinear_arith)
        requires
            c == nx * y + c % nx,
            0 <= c % nx < nx,
            0 <= c < nx * ny,
            nx > 0,
    ;
    assert((y * nx + c % nx) * nt + i % nt == i) by (nonlinear_arith)
        requires
            i == nt * c + i % nt,
            c == nx * y + c % nx,
    ;
}

/// Index of the state `(ix, iy, it)`.
///
/// The caller keeps the coordinates on a lattice whose size fits an `i32`.
pub fn to_index_raw(ix: i32, iy: i32, it: i32, nx: i32, nt: i32) -> (r: i32)
    requires
        on_axis(ix as int, nx as int),
        on_axis(it as int, nt as int),
        0 <= iy,
        nx * (iy + 1) * nt <= i32::MAX,
    ensures
        r == index3(ix as int, iy as int, it as int, nx as int, nt as int),
{
    proof {
        let ny = iy as int + 1;
        lemma_index_bound(ix as int, iy as int, it as int, nx as int, ny, nt as int);
        lemma_cell_bound(ix as int, iy as int, nx as int, ny);
        let c = iy * nx + ix;
        assert(nx * ny <= nx * ny * nt) by (nonlinear_arith)
            requires
                1 <= nt,
                0 <= nx * ny,
        ;
        assert(0 <= c * nt) by (nonlinear_arith)
            requires
                0 <= c,
                0 <= nt,
        ;
    }
    (iy * nx + ix) * nt + it
}

/// Headings of a cell stand next to each other, then come the cells of a row, then the rows;
/// the first state is the first heading of the corner.
pub proof fn law_headings_then_columns_then_rows(ix: int, iy: int, it: int, nx: int, nt: int)
    ensures
        index3(0, 0, 0, nx, nt) == 0,
        index3(ix, iy, it + 1, nx, nt) == index3(ix, iy, it, nx, nt) + 1,
        index3(ix + 1, iy, it, nx, nt) == index3(ix, iy, it, nx, nt) + nt,
        index3(ix, iy + 1, it, nx, nt) == index3(ix, iy, it, nx, nt) + nx * nt,
{
    let c = iy * nx + ix;
    assert((iy + 1) * nx + ix == c + nx) by (nonlinear_arith)
        requires
            c == iy * nx + ix,
    ;
    assert((c + 1) * nt == c * nt + nt && (c + nx) * nt == c * nt + nx * nt) by (nonlinear_arith);
    assert(0 * nx == 0 && 0 * nt == 0);
}

} // verus!
