//! Where hypotheses are looked for and where their weight goes: blocks of cells, and the
//! states around a state.
use vstd::prelude::*;

use crate::belief::index::{lemma_at, BeliefGrid};
use crate::grid::{lemma_cell_bound, on_axis};

verus! {

/// Cells along the side of a block.
pub const MATCH_STRIDE_CELLS: i32 = 8;

/// The free cells of the block whose first cell is `(bx, by)`: the first `n` of its 64
/// places, row by row.
pub open spec fn block_free(
    nx: int,
    ny: int,
    free: Seq<bool>,
    bx: int,
    by: int,
    n: int,
) -> Seq<(i32, i32)>
    decreases n,
{
    if n <= 0 {
        Seq::empty()
    } else {
        let p = block_free(nx, ny, free, bx, by, n - 1);
        let (x, y) = (bx + (n - 1) % 8, by + (n - 1) / 8);
        if on_axis(x, nx) && on_axis(y, ny) && free[y * nx + x] {
            p.push((x as i32, y as i32))
        } else {
            p
        }
    }
}

/// The free cells of a block.
pub fn block_cells(nx: i32, ny: i32, free: &Vec<bool>, bx: i32, by: i32) -> (r: Vec<(i32, i32)>)
    requires
        0 <= nx,
        0 <= ny,
        nx * ny <= i32::MAX,
        free@.len() == nx * ny,
        on_axis(bx as int, nx as int),
        on_axis(by as int, ny as int),
    ensures
        r@ == block_free(nx as int, ny as int, free@, bx as int, by as int, 64),
{
    let mut out: Vec<(i32, i32)> = Vec::new();
    let mut k: i32 = 0;
    while k < 64
        invariant
            0 <= nx,
            0 <= ny,
            nx * ny <= i32::MAX,
            free@.len() == nx * ny,
            on_axis(bx as int, nx as int),
            on_axis(by as int, ny as int),
            0 <= k <= 64,
            out@ == block_free(nx as int, ny as int, free@, bx as int, by as int, k as int),
        decreases 64 - k,
    {
        let (dx, dy) = (k % 8, k / 8);
        if dx < nx - bx && dy < ny - by {
            let (x, y) = (bx + dx, by + dy);
            proof {
                lemma_cell_bound(x as int, y as int, nx as int, ny as int);
                assert(0 <= y * nx) by (nonlinear_arith)
                    requires
                        0 <= y,
                        0 <= nx,
                ;
            }
            if free[(y * nx + x) as usize] {
                out.push((x, y));
            }
        }
        k += 1;
    }
    out
}

/// Blocks in a row of cells of length `n`.
pub open spec fn blocks_along(n: int) -> int {
    (n + 7) / 8
}

/// Those of the first `n` blocks, row by row, that hold a free cell.
pub open spec fn free_blocks(nx: int, ny: int, free: Seq<bool>, n: int) -> Seq<(i32, i32)>
    decreases n,
{
    if n <= 0 {
        Seq::empty()
    } else {
        let p = free_blocks(nx, ny, free, n - 1);
        let c = blocks_along(nx);
        let (bx, by) = (8 * ((n - 1) % c), 8 * ((n - 1) / c));
        if block_free(nx, ny, free, bx, by, 64).len() > 0 {
            p.push((bx as i32, by as i32))
        } else {
            p
        }
    }
}

/// All blocks that hold a free cell.
pub fn build_match_pool(nx: i32, ny: i32, free: &Vec<bool>) -> (r: Vec<(i32, i32)>)
    requires
        0 <= nx,
        0 <= ny,
        nx * ny <= i32::MAX,
        free@.len() == nx * ny,
    ensures
        r@ == free_blocks(
            nx as int,
            ny as int,
            free@,
            blocks_along(nx as int) * blocks_along(ny as int),
        ),
{
    let mut out: Vec<(i32, i32)> = Vec::new();
    let (cx, cy) = ((nx as i64 + 7) / 8, (ny as i64 + 7) / 8);
    let mut by: i64 = 0;
    while by < cy
        invariant
            0 <= nx,
            0 <= ny,
            nx * ny <= i32::MAX,
            free@.len() == nx * ny,
            cx == blocks_along(nx as int),
            cy == blocks_along(ny as int),
            0 <= by <= cy,
            out@ == free_blocks(nx as int, ny as int, free@, by * cx),
        decreases cy - by,
    {
        let mut bx: i64 = 0;
        while bx < cx
            invariant
                0 <= nx,
                0 <= ny,
                nx * ny <= i32::MAX,
                free@.len() == nx * ny,
                cx == blocks_along(nx as int),
                cy == blocks_along(ny as int),
                0 <= by < cy,
                0 <= bx <= cx,
                out@ == free_blocks(nx as int, ny as int, free@, by * cx + bx),
            decreases cx - bx,
        {
            let (x, y) = ((8 * bx) as i32, (8 * by) as i32);
            let cells: Vec<(i32, i32)> = block_cells(nx, ny, free, x, y);
            proof {
                let k = by * cx + bx;
                vstd::arithmetic::div_mod::lemma_fundamental_div_mod_converse(
                    k as int,
                    cx as int,
                    by as int,
                    bx as int,
                );
                assert(0 <= by * cx) by (nonlinear_arith)
                    requires
                        0 <= by,
                        0 <= cx,
                ;
            }
            if cells.len() > 0 {
                out.push((x, y));
            }
            bx += 1;
        }
        proof {
            assert((by + 1) * cx == by * cx + cx) by (nonlinear_arith);
        }
        by += 1;
    }
    assert(cy * cx == cx * cy) by (nonlinear_arith);
    out
}

/// Every free cell lies in one of the blocks.
pub proof fn law_blocks_cover(nx: int, ny: int, free: Seq<bool>, x: int, y: int)
    requires
        free.len() == nx * ny,
        on_axis(x, nx),
        on_axis(y, ny),
        nx <= i32::MAX,
        ny <= i32::MAX,
        free[y * nx + x],
    ensures
        free_blocks(nx, ny, free, blocks_along(nx) * blocks_along(ny)).contains(
            ((8 * (x / 8)) as i32, (8 * (y / 8)) as i32),
        ),
        block_free(nx, ny, free, 8 * (x / 8), 8 * (y / 8), 64).contains((x as i32, y as i32)),
{
    let (cx, cy) = (blocks_along(nx), blocks_along(ny));
    let (bx, by) = (x / 8, y / 8);
    let k = (y % 8) * 8 + x % 8;
    assert(k % 8 == x % 8 && k / 8 == y % 8);
    assert(8 * bx + k % 8 == x && 8 * by + k / 8 == y);
    lemma_block(nx, ny, free, 8 * bx, 8 * by, 64, k);
    let b = by * cx + bx;
    assert(0 <= b < cx * cy) by (nonlinear_arith)
        requires
            b == by * cx + bx,
            0 <= by,
            by + 1 <= cy,
            0 <= bx < cx,
    ;
    vstd::arithmetic::div_mod::lemma_fundamental_div_mod_converse(b, cx, by, bx);
    lemma_pool(nx, ny, free, cx * cy, b);
}

proof fn lemma_block(
    nx: int,
    ny: int,
    free: Seq<bool>,
    bx: int,
    by: int,
    n: int,
    k: int,
)
    requires
        0 <= k < n,
        on_axis(bx + k % 8, nx),
        on_axis(by + k / 8, ny),
        free[(by + k / 8) * nx + (bx + k % 8)],
    ensures
        block_free(nx, ny, free, bx, by, n).contains(
            ((bx + k % 8) as i32, (by + k / 8) as i32),
        ),
    decreases n,
{
    let l = block_free(nx, ny, free, bx, by, n);
    let p = block_free(nx, ny, free, bx, by, n - 1);
    let c = ((bx + k % 8) as i32, (by + k / 8) as i32);
    if k < n - 1 {
        lemma_block(nx, ny, free, bx, by, n - 1, k);
        let i = choose|i: int| 0 <= i < p.len() && p[i] == c;
        assert(l[i] == c);
    } else {
        assert(l[p.len() as int] == c);
    }
}

proof fn lemma_pool(nx: int, ny: int, free: Seq<bool>, n: int, k: int)
    requires
        0 <= k < n,
        ({
            let c = blocks_along(nx);
            block_free(nx, ny, free, 8 * (k % c), 8 * (k / c), 64).len() > 0
        }),
    ensures
        ({
            let c = blocks_along(nx);
            free_blocks(nx, ny, free, n).contains(
                ((8 * (k % c)) as i32, (8 * (k / c)) as i32),
            )
        }),
    decreases n,
{
    let c = blocks_along(nx);
    let l = free_blocks(nx, ny, free, n);
    let p = free_blocks(nx, ny, free, n - 1);
    let b = ((8 * (k % c)) as i32, (8 * (k / c)) as i32);
    if k < n - 1 {
        lemma_pool(nx, ny, free, n - 1, k);
        let i = choose|i: int| 0 <= i < p.len() && p[i] == b;
        assert(l[i] == b);
    } else {
        assert(l[p.len() as int] == b);
    }
}

/// The first `n` of the `offsets` from a state that lead to free states of the map, each
/// with the position of the state and the number of the offset. Headings go round.
pub open spec fn targets_of(
    g: BeliefGrid,
    free: Seq<bool>,
    p: (int, int, int),
    offsets: Seq<(i32, i32, i32)>,
    n: int,
) -> Seq<(u32, u32)>
    decreases n,
{
    if n <= 0 {
        Seq::empty()
    } else {
        let before = targets_of(g, free, p, offsets, n - 1);
        let o = offsets[n - 1];
        let (x, y, t) = (p.0 + o.0, p.1 + o.1, (p.2 + o.2) % (g.nt as int));
        if on_axis(x, g.nx as int) && on_axis(y, g.ny as int) && free[y * g.nx + x] {
            before.push((g.at(x, y, t) as u32, (n - 1) as u32))
        } else {
            before
        }
    }
}

/// The free states of the map that the `offsets` from `(x, y, t)` lead to, each with the
/// number of its offset. What would fall off the map or into a wall is left out.
pub fn targets(
    g: &BeliefGrid,
    free: &Vec<bool>,
    x: i32,
    y: i32,
    t: i32,
    offsets: &Vec<(i32, i32, i32)>,
) -> (r: Vec<(u32, u32)>)
    requires
        g.wf(),
        0 < g.nt,
        free@.len() == g.nx * g.ny,
        offsets@.len() <= u32::MAX,
    ensures
        r@ == targets_of(
            *g,
            free@,
            (x as int, y as int, t as int),
            offsets@,
            offsets@.len() as int,
        ),
{
    let ghost p = (x as int, y as int, t as int);
    let mut out: Vec<(u32, u32)> = Vec::new();
    let mut k: usize = 0;
    while k < offsets.len()
        invariant
            g.wf(),
            0 < g.nt,
            free@.len() == g.nx * g.ny,
            offsets@.len() <= u32::MAX,
            p == (x as int, y as int, t as int),
            k <= offsets@.len(),
            out@ == targets_of(*g, free@, p, offsets@, k as int),
        decreases offsets.len() - k,
    {
        let (dx, dy, dt) = offsets[k];
        let jx: i64 = x as i64 + dx as i64;
        let jy: i64 = y as i64 + dy as i64;
        let jt: i32 = crate::belief::viterbi::rem_floor(t as i64 + dt as i64, g.nt);
        if jx >= 0 && jx < g.nx as i64 && jy >= 0 && jy < g.ny as i64 {
            proof {
                lemma_cell_bound(jx as int, jy as int, g.nx as int, g.ny as int);
                assert(0 <= jy * g.nx) by (nonlinear_arith)
                    requires
                        0 <= jy,
                        0 <= g.nx,
                ;
            }
            if free[(jy as i32 * g.nx + jx as i32) as usize] {
                out.push((g.index(jx as i32, jy as i32, jt) as u32, k as u32));
            }
        }
        k += 1;
    }
    out
}

/// Every cell listed for a block is a free cell of the map in that block, and a block is
/// listed only where it holds one.
pub proof fn law_block_lists_only_its_cells(
    nx: int,
    ny: int,
    free: Seq<bool>,
    bx: int,
    by: int,
    n: int,
)
    requires
        0 <= n <= 64,
        0 <= nx <= i32::MAX,
        0 <= ny <= i32::MAX,
    ensures
        forall|i: int|
            0 <= i < block_free(nx, ny, free, bx, by, n).len() ==> {
                let (x, y) = #[trigger] block_free(nx, ny, free, bx, by, n)[i];
                &&& bx <= x < bx + 8 && by <= y < by + 8
                &&& 0 <= x < nx && 0 <= y < ny
                &&& free[y * nx + x]
            },
    decreases n,
{
    if n > 0 {
        law_block_lists_only_its_cells(nx, ny, free, bx, by, n - 1);
        let p = block_free(nx, ny, free, bx, by, n - 1);
        let l = block_free(nx, ny, free, bx, by, n);
        assert forall|i: int| 0 <= i < l.len() implies {
            let (x, y) = #[trigger] l[i];
            &&& bx <= x < bx + 8 && by <= y < by + 8
            &&& 0 <= x < nx && 0 <= y < ny
            &&& free[y * nx + x]
        } by {
            if i < p.len() {
                assert(l[i] == p[i]);
            }
        }
    }
}

/// A block is listed only where a cell of it is free, and only blocks that start at
/// multiples of eight are.
pub proof fn law_pool_lists_only_free_blocks(nx: int, ny: int, free: Seq<bool>, n: int)
    requires
        0 < nx <= i32::MAX - 7,
        0 <= n,
        8 * n <= i32::MAX,
    ensures
        forall|i: int|
            0 <= i < free_blocks(nx, ny, free, n).len() ==> {
                let (bx, by) = #[trigger] free_blocks(nx, ny, free, n)[i];
                &&& bx as int % 8 == 0 && by as int % 8 == 0
                &&& 0 <= bx < nx && 0 <= by
                &&& block_free(nx, ny, free, bx as int, by as int, 64).len() > 0
            },
    decreases n,
{
    if n > 0 {
        law_pool_lists_only_free_blocks(nx, ny, free, n - 1);
        let c = blocks_along(nx);
        let k = n - 1;
        vstd::arithmetic::div_mod::lemma_fundamental_div_mod(k, c);
        vstd::arithmetic::div_mod::lemma_mod_bound(k, c);
        let q = k / c;
        assert(0 <= q <= k) by (nonlinear_arith)
            requires
                k == c * q + k % c,
                0 <= k % c,
                k % c < c,
                0 <= k,
                1 <= c,
        ;
        let p = free_blocks(nx, ny, free, n - 1);
        let l = free_blocks(nx, ny, free, n);
        assert forall|i: int| 0 <= i < l.len() implies {
            let (bx, by) = #[trigger] l[i];
            &&& bx as int % 8 == 0 && by as int % 8 == 0
            &&& 0 <= bx < nx && 0 <= by
            &&& block_free(nx, ny, free, bx as int, by as int, 64).len() > 0
        } by {
            if i < p.len() {
                assert(l[i] == p[i]);
            }
        }
    }
}

/// Every target belongs to the offset that it names: it lies that many columns and rows
/// from the place and is turned by that many headings, in either direction, and its cell is
/// free.
pub proof fn law_targets_lie_at_their_offsets(
    g: BeliefGrid,
    free: Seq<bool>,
    p: (int, int, int),
    offsets: Seq<(i32, i32, i32)>,
    n: int,
    i: int,
)
    requires
        g.wf(),
        0 < g.nt,
        0 <= n <= offsets.len() <= u32::MAX,
        0 <= i < targets_of(g, free, p, offsets, n).len(),
    ensures
        ({
            let (s, k) = targets_of(g, free, p, offsets, n)[i];
            &&& k < n
            &&& exists|x: int, y: int, t: int| #[trigger]
                g.has(x, y, t) && s == g.at(x, y, t) && x - p.0 == offsets[k as int].0 && y - p.1
                    == offsets[k as int].1 && (t - p.2 - offsets[k as int].2) % (g.nt as int) == 0
                    && free[y * g.nx + x]
        }),
    decreases n,
{
    let l = targets_of(g, free, p, offsets, n);
    let b = targets_of(g, free, p, offsets, n - 1);
    if i < b.len() {
        law_targets_lie_at_their_offsets(g, free, p, offsets, n - 1, i);
        assert(l[i] == b[i]);
    } else {
        let o = offsets[n - 1];
        let nt = g.nt as int;
        let a = p.2 + o.2;
        let (x, y, t) = (p.0 + o.0, p.1 + o.1, a % nt);
        vstd::arithmetic::div_mod::lemma_fundamental_div_mod(a, nt);
        vstd::arithmetic::div_mod::lemma_mod_bound(a, nt);
        let q = a / nt;
        assert(t - p.2 - o.2 == (-q) * nt + 0) by (nonlinear_arith)
            requires
                a == nt * q + t,
                a == p.2 + o.2,
        ;
        vstd::arithmetic::div_mod::lemma_fundamental_div_mod_converse(t - p.2 - o.2, nt, -q, 0);
        lemma_at(g, x, y, t);
        assert(g.has(x, y, t));
    }
}

/// Every offset that leads to a free cell of the map has a target.
pub proof fn law_offsets_have_targets(
    g: BeliefGrid,
    free: Seq<bool>,
    p: (int, int, int),
    offsets: Seq<(i32, i32, i32)>,
    n: int,
    k: int,
)
    requires
        0 <= k < n <= offsets.len() <= u32::MAX,
        on_axis(p.0 + offsets[k].0, g.nx as int),
        on_axis(p.1 + offsets[k].1, g.ny as int),
        free[(p.1 + offsets[k].1) * g.nx + (p.0 + offsets[k].0)],
    ensures
        exists|i: int|
            0 <= i < targets_of(g, free, p, offsets, n).len() && (#[trigger] targets_of(
                g,
                free,
                p,
                offsets,
                n,
            )[i]).1 == k,
    decreases n,
{
    let l = targets_of(g, free, p, offsets, n);
    let b = targets_of(g, free, p, offsets, n - 1);
    if k < n - 1 {
        law_offsets_have_targets(g, free, p, offsets, n - 1, k);
        let i = choose|i: int| 0 <= i < b.len() && (#[trigger] b[i]).1 == k;
        assert(l[i].1 == k);
    } else {
        assert(l[b.len() as int].1 == k);
    }
}

} // verus!
