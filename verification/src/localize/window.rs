//! The window through which a level is seen: where it lies, which of its states are free,
//! and how a belief moves from one window to another.
use vstd::prelude::*;

use crate::belief::index::{
    belief_index, bidx2, law_decode_undoes_index, lemma_at, BeliefGrid,
};
use crate::chamfer::abs;
use crate::grid::{lemma_cell_bound, on_axis};
use crate::localize::level::{cover, Level};

verus! {

/// Position of the state `(ix, iy, it)` in a belief with as many columns as rows.
pub fn bidx(nw: i32, ix: i32, iy: i32, it: i32) -> (r: usize)
    requires
        on_axis(ix as int, nw as int),
        on_axis(iy as int, nw as int),
        0 <= it,
        (it + 1) * nw * nw <= usize::MAX,
    ensures
        r == belief_index(nw as int, nw as int, ix as int, iy as int, it as int),
{
    bidx2(nw, nw, ix, iy, it)
}

impl Level {
    /// The lattice of the window.
    pub open spec fn grid(self) -> BeliefGrid {
        BeliefGrid { nx: self.nx, ny: self.ny, nt: self.nt }
    }

    /// The window fits on the map, and its states can be numbered.
    pub open spec fn wf(self) -> bool {
        &&& self.grid().wf()
        &&& 0 < self.nt
        &&& 1 <= self.mult <= 0xffff
        &&& self.nx <= self.map_w
        &&& self.ny <= self.map_h
        &&& self.map_w * self.map_h <= i32::MAX
        &&& self.free@.len() == 0 || self.free@.len() == self.map_w * self.map_h
    }
}

/// First column or row of a window of `n` cells around cell `c`, on a map of `m` cells.
pub open spec fn placed(c: int, n: int, m: int) -> int {
    let last = if m - n > 0 {
        m - n
    } else {
        0
    };
    let s = c - n / 2;
    if s < 0 {
        0
    } else if s > last {
        last
    } else {
        s
    }
}

/// First column or row of a window of `n` cells around cell `c`, on a map of `m` cells.
/// The window does not leave the map.
pub fn place_window(c: i32, n: i32, m: i32) -> (r: i32)
    requires
        0 <= n <= m,
    ensures
        r == placed(c as int, n as int, m as int),
        0 <= r <= m - n,
{
    let s: i64 = c as i64 - (n / 2) as i64;
    let last: i32 = m - n;
    if s < 0 {
        0
    } else if s > last as i64 {
        last
    } else {
        s as i32
    }
}

/// Whether the cell `(ix, iy)` of a window of a coarser level is free.
pub fn level_free(l: &Level, wx0: i32, wy0: i32, ix: i32, iy: i32) -> (r: bool)
    requires
        l.wf(),
        l.free@.len() > 0,
    ensures
        ({
            let (x, y) = (wx0 + ix, wy0 + iy);
            r == (on_axis(x, l.map_w as int) && on_axis(y, l.map_h as int) && l.free@[y * l.map_w
                + x])
        }),
{
    let x: i64 = wx0 as i64 + ix as i64;
    let y: i64 = wy0 as i64 + iy as i64;
    if x < 0 || y < 0 || x >= l.map_w as i64 || y >= l.map_h as i64 {
        return false;
    }
    proof {
        lemma_cell_bound(x as int, y as int, l.map_w as int, l.map_h as int);
        assert(0 <= y * l.map_w) by (nonlinear_arith)
            requires
                0 <= y,
                0 <= l.map_w,
        ;
    }
    l.free[(y as i32 * l.map_w + x as i32) as usize]
}

/// The coarse cell that the middle of cell `c` lies in, where cells are `from` and `to`
/// cells of the map wide.
pub open spec fn coarse_of(c: int, from: int, to: int) -> int {
    ((2 * c + 1) * from) / (2 * to)
}

/// The heading among `to` headings that the middle of heading `t` among `from` lies in.
pub open spec fn heading_of(t: int, from: int, to: int) -> int {
    (((2 * t + 1) * to) / (2 * from)) % to
}

/// The state of the window `(x1, y1)` of level `b` in which the middle of the state `(ix,
/// iy, it)` of the window `(x0, y0)` of level `a` lies.
pub open spec fn carried(
    a: Level,
    x0: int,
    y0: int,
    b: Level,
    x1: int,
    y1: int,
    ix: int,
    iy: int,
    it: int,
) -> Option<int> {
    let jx = coarse_of(x0 + ix, a.mult as int, b.mult as int) - x1;
    let jy = coarse_of(y0 + iy, a.mult as int, b.mult as int) - y1;
    let jt = heading_of(it, a.nt as int, b.nt as int);
    if on_axis(jx, b.nx as int) && on_axis(jy, b.ny as int) {
        Some(b.grid().at(jx, jy, jt))
    } else {
        None
    }
}

fn coarse_cell(c: i32, from: i32, to: i32) -> (r: i64)
    requires
        0 <= c,
        1 <= from <= 0xffff,
        1 <= to <= 0xffff,
    ensures
        r == coarse_of(c as int, from as int, to as int),
        0 <= r <= 0xffff_ffff * 0xffff,
{
    let k: i64 = 2 * c as i64 + 1;
    assert(0 <= k * from <= 0xffff_ffff * 0xffff) by (nonlinear_arith)
        requires
            0 <= k <= 0xffff_ffff,
            0 <= from <= 0xffff,
    ;
    let p: i64 = k * from as i64;
    let d: i64 = 2 * to as i64;
    proof {
        vstd::arithmetic::div_mod::lemma_div_pos_is_pos(p as int, d as int);
        vstd::arithmetic::div_mod::lemma_div_is_ordered_by_denominator(p as int, 1, d as int);
    }
    p / d
}

/// Where each state of a window goes when a belief is carried over to another level; none
/// for a state whose middle lies outside the other window.
pub fn carry_over(
    a: &Level,
    x0: i32,
    y0: i32,
    b: &Level,
    x1: i32,
    y1: i32,
) -> (r: Vec<Option<u32>>)
    requires
        a.wf(),
        b.wf(),
        0 <= x0 <= a.map_w - a.nx,
        0 <= y0 <= a.map_h - a.ny,
        0 <= x1,
        0 <= y1,
        a.grid().len() <= usize::MAX,
    ensures
        r@.len() == a.grid().len(),
        forall|ix: int, iy: int, it: int|
            a.grid().has(ix, iy, it) ==> match #[trigger] carried(
                *a,
                x0 as int,
                y0 as int,
                *b,
                x1 as int,
                y1 as int,
                ix,
                iy,
                it,
            ) {
                Some(j) => r@[a.grid().at(ix, iy, it)] == Some(j as u32) && 0 <= j < b.grid().len(),
                None => r@[a.grid().at(ix, iy, it)] is None,
            },
{
    let ghost (la, lb) = (*a, *b);
    let ghost g = a.grid();
    let from: BeliefGrid = BeliefGrid { nx: a.nx, ny: a.ny, nt: a.nt };
    let to: BeliefGrid = BeliefGrid { nx: b.nx, ny: b.ny, nt: b.nt };
    let n: usize = crate::belief::evidence::state_count(&from);
    let mut out: Vec<Option<u32>> = Vec::new();
    let mut i: usize = 0;
    while i < n
        invariant
            a.wf(),
            b.wf(),
            (la, lb) == (*a, *b),
            0 <= x0 <= a.map_w - a.nx,
            0 <= y0 <= a.map_h - a.ny,
            0 <= x1,
            0 <= y1,
            from == a.grid(),
            to == b.grid(),
            g == from,
            n == g.len(),
            i <= n,
            out@.len() == i,
            forall|ix: int, iy: int, it: int|
                g.has(ix, iy, it) && g.at(ix, iy, it) < i ==> match #[trigger] carried(
                    la,
                    x0 as int,
                    y0 as int,
                    lb,
                    x1 as int,
                    y1 as int,
                    ix,
                    iy,
                    it,
                ) {
                    Some(j) => out@[g.at(ix, iy, it)] == Some(j as u32) && 0 <= j < lb.grid().len(),
                    None => out@[g.at(ix, iy, it)] is None,
                },
        decreases n - i,
    {
        let (ix, iy, it) = from.decode(i as u32);
        let jx: i64 = coarse_cell(x0 + ix, a.mult, b.mult) - x1 as i64;
        let jy: i64 = coarse_cell(y0 + iy, a.mult, b.mult) - y1 as i64;
        let k: i64 = 2 * it as i64 + 1;
        proof {
            assert(0 <= k * b.nt <= 0xffff_ffff * 0x7fff_ffff) by (nonlinear_arith)
                requires
                    0 <= k <= 0xffff_ffff,
                    0 <= b.nt <= 0x7fff_ffff,
            ;
        }
        let p: i64 = k * b.nt as i64;
        let d: i64 = 2 * a.nt as i64;
        proof {
            vstd::arithmetic::div_mod::lemma_fundamental_div_mod(p as int, d as int);
            vstd::arithmetic::div_mod::lemma_mod_bound(p as int, d as int);
            let q = p as int / d as int;
            assert(0 <= q < b.nt) by (nonlinear_arith)
                requires
                    p == d * q + p as int % d as int,
                    0 <= p as int % d as int,
                    (p as int % d as int) < d,
                    p == k * b.nt,
                    0 <= k,
                    k + 1 <= d,
                    d == 2 * a.nt,
                    0 < b.nt,
            ;
            vstd::arithmetic::div_mod::lemma_small_mod(q as nat, b.nt as nat);
        }
        let jt: i32 = (p / d) as i32;
        let v: Option<u32> = if jx >= 0 && jx < b.nx as i64 && jy >= 0 && jy < b.ny as i64 {
            Some(to.index(jx as i32, jy as i32, jt) as u32)
        } else {
            None
        };
        let ghost before = out@;
        out.push(v);
        proof {
            assert forall|ux: int, uy: int, ut: int|
                g.has(ux, uy, ut) && g.at(ux, uy, ut) < i + 1 implies match #[trigger] carried(
                la,
                x0 as int,
                y0 as int,
                lb,
                x1 as int,
                y1 as int,
                ux,
                uy,
                ut,
            ) {
                Some(j) => out@[g.at(ux, uy, ut)] == Some(j as u32) && 0 <= j < lb.grid().len(),
                None => out@[g.at(ux, uy, ut)] is None,
            } by {
                lemma_at(g, ux, uy, ut);
                let c = carried(
                    la,
                    x0 as int,
                    y0 as int,
                    lb,
                    x1 as int,
                    y1 as int,
                    ux,
                    uy,
                    ut,
                );
                if g.at(ux, uy, ut) == i {
                    crate::belief::index::lemma_at_injective(
                        g,
                        ux,
                        uy,
                        ut,
                        ix as int,
                        iy as int,
                        it as int,
                    );
                } else {
                    assert(out@[g.at(ux, uy, ut)] == before[g.at(ux, uy, ut)]);
                }
            }
        }
        i += 1;
    }
    proof {
        assert forall|ix: int, iy: int, it: int| a.grid().has(ix, iy, it) implies match #[trigger] carried(
            la,
            x0 as int,
            y0 as int,
            lb,
            x1 as int,
            y1 as int,
            ix,
            iy,
            it,
        ) {
            Some(j) => out@[g.at(ix, iy, it)] == Some(j as u32) && 0 <= j < lb.grid().len(),
            None => out@[g.at(ix, iy, it)] is None,
        } by {
            lemma_at(g, ix, iy, it);
        }
    }
    out
}

/// Carrying a belief over from the fine level to one that shows the whole map loses no
/// hypothesis.
pub proof fn law_whole_map_keeps_all(
    a: Level,
    x0: int,
    y0: int,
    b: Level,
    ix: int,
    iy: int,
    it: int,
)
    requires
        a.wf(),
        b.wf(),
        a.mult == 1,
        b.whole,
        b.nx == b.map_w,
        b.ny == b.map_h,
        b.map_w == cover(a.map_w as int, b.mult as int),
        b.map_h == cover(a.map_h as int, b.mult as int),
        a.grid().has(ix, iy, it),
        0 <= x0 <= a.map_w - a.nx,
        0 <= y0 <= a.map_h - a.ny,
    ensures
        carried(a, x0, y0, b, 0, 0, ix, iy, it) is Some,
{
    lemma_inside(x0 + ix, a.map_w as int, b.mult as int);
    lemma_inside(y0 + iy, a.map_h as int, b.mult as int);
}

proof fn lemma_inside(c: int, n: int, m: int)
    requires
        0 <= c < n,
        1 <= m,
    ensures
        0 <= coarse_of(c, 1, m) < cover(n, m),
{
    let k = 2 * c + 1;
    let d = 2 * m;
    vstd::arithmetic::div_mod::lemma_fundamental_div_mod(k, d);
    vstd::arithmetic::div_mod::lemma_mod_bound(k, d);
    vstd::arithmetic::div_mod::lemma_fundamental_div_mod(n + m - 1, m);
    vstd::arithmetic::div_mod::lemma_mod_bound(n + m - 1, m);
    let (q, e) = (k / d, cover(n, m));
    assert((2 * c + 1) * 1 == k);
    assert(0 <= q) by (nonlinear_arith)
        requires
            k == d * q + k % d,
            0 < k,
            k % d < d,
            0 < d,
    ;
    assert(q < e) by (nonlinear_arith)
        requires
            k == d * q + k % d,
            0 <= k % d,
            d == 2 * m,
            n + m - 1 == m * e + (n + m - 1) % m,
            (n + m - 1) % m < m,
            k <= 2 * n - 1,
            0 < m,
    ;
}

/// The state at position `i` of the window is free.
pub open spec fn free_here(l: Level, wx0: int, wy0: int, i: int) -> bool {
    let p = l.nx * l.ny;
    let (x, y) = (wx0 + (i % p) % (l.nx as int), wy0 + (i % p) / (l.nx as int));
    l.free@.len() == 0 || l.free@[y * l.map_w + x]
}

/// The free states of a window; all of them where none is free.
pub fn window_states(l: &Level, wx0: i32, wy0: i32) -> (r: Vec<u32>)
    requires
        l.wf(),
        0 <= wx0 <= l.map_w - l.nx,
        0 <= wy0 <= l.map_h - l.ny,
        l.grid().len() <= usize::MAX,
    ensures
        ({
            let free = crate::belief::evidence::listed(
                |i: int| free_here(*l, wx0 as int, wy0 as int, i),
                l.grid().len(),
            );
            r@ == if free.len() > 0 {
                free
            } else {
                crate::belief::evidence::listed(|i: int| true, l.grid().len())
            }
        }),
{
    let g: BeliefGrid = BeliefGrid { nx: l.nx, ny: l.ny, nt: l.nt };
    let n: usize = crate::belief::evidence::state_count(&g);
    let ghost keep = |i: int| free_here(*l, wx0 as int, wy0 as int, i);
    let ghost all = |i: int| true;
    let mut out: Vec<u32> = Vec::new();
    let mut every: Vec<u32> = Vec::new();
    let mut i: usize = 0;
    while i < n
        invariant
            l.wf(),
            0 <= wx0 <= l.map_w - l.nx,
            0 <= wy0 <= l.map_h - l.ny,
            g == l.grid(),
            n == g.len(),
            i <= n,
            keep == (|i: int| free_here(*l, wx0 as int, wy0 as int, i)),
            all == (|i: int| true),
            out@ == crate::belief::evidence::listed(keep, i as int),
            every@ == crate::belief::evidence::listed(all, i as int),
        decreases n - i,
    {
        let (ix, iy, it) = g.decode(i as u32);
        proof {
            crate::belief::index::law_decode_undoes_index(g, ix as int, iy as int, it as int);
        }
        let open: bool = if l.free.len() == 0 {
            true
        } else {
            level_free(l, wx0, wy0, ix, iy)
        };
        if open {
            out.push(i as u32);
        }
        every.push(i as u32);
        i += 1;
    }
    if out.len() > 0 {
        out
    } else {
        every
    }
}

/// A shift of the window that is too small to be worth it.
pub open spec fn stays(dx: int, dy: int) -> bool {
    abs(dx) < 2 && abs(dy) < 2
}

/// How far a window on the map is to be moved so that cell `(cx, cy)` lies in its middle,
/// if that is worth it.
pub fn recenter_by(l: &Level, wx0: i32, wy0: i32, cx: i32, cy: i32) -> (r: Option<(i32, i32)>)
    requires
        l.wf(),
        0 <= wx0 <= l.map_w - l.nx,
        0 <= wy0 <= l.map_h - l.ny,
    ensures
        ({
            let dx = placed(cx as int, l.nx as int, l.map_w as int) - wx0;
            let dy = placed(cy as int, l.ny as int, l.map_h as int) - wy0;
            r == if stays(dx, dy) {
                None
            } else {
                Some((dx as i32, dy as i32))
            }
        }),
{
    let dx: i32 = place_window(cx, l.nx, l.map_w) - wx0;
    let dy: i32 = place_window(cy, l.ny, l.map_h) - wy0;
    if dx > -2 && dx < 2 && dy > -2 && dy < 2 {
        None
    } else {
        Some((dx, dy))
    }
}

/// How far a window of `nw` cells that may leave the map is to be moved so that cell `(cx,
/// cy)` of the window lies in its middle, if that is worth it.
pub fn follow_by(nw: i32, cx: i32, cy: i32) -> (r: Option<(i32, i32)>)
    requires
        0 <= nw,
        i32::MIN <= cx - nw,
        i32::MIN <= cy - nw,
    ensures
        ({
            let (dx, dy) = (cx - nw as int / 2, cy - nw as int / 2);
            r == if stays(dx, dy) {
                None
            } else {
                Some((dx as i32, dy as i32))
            }
        }),
{
    let dx: i32 = cx - nw / 2;
    let dy: i32 = cy - nw / 2;
    if dx > -2 && dx < 2 && dy > -2 && dy < 2 {
        None
    } else {
        Some((dx, dy))
    }
}

/// The weights of a window that has been moved by `(dx, dy)` cells. What was not in the
/// window before has weight `none`, and what is not in it any more is lost.
pub fn shift_window<T: Copy>(b: &Vec<T>, g: &BeliefGrid, dx: i32, dy: i32, none: T) -> (r: Vec<T>)
    requires
        g.wf(),
        b@.len() == g.len(),
    ensures
        r@.len() == b@.len(),
        forall|x: int, y: int, t: int|
            g.has(x, y, t) ==> #[trigger] at_of(r@, *g, x, y, t) == if on_axis(
                x + dx,
                g.nx as int,
            ) && on_axis(y + dy, g.ny as int) {
                at_of(b@, *g, x + dx, y + dy, t)
            } else {
                none
            },
{
    let ghost gg = *g;
    let n: usize = b.len();
    let mut out: Vec<T> = Vec::new();
    let mut i: usize = 0;
    while i < n
        invariant
            g.wf(),
            gg == *g,
            n == b@.len(),
            n == g.len(),
            i <= n,
            out@.len() == i,
            forall|x: int, y: int, t: int|
                gg.has(x, y, t) && gg.at(x, y, t) < i ==> #[trigger] at_of(out@, gg, x, y, t)
                    == if on_axis(x + dx, gg.nx as int) && on_axis(y + dy, gg.ny as int) {
                    at_of(b@, gg, x + dx, y + dy, t)
                } else {
                    none
                },
        decreases n - i,
    {
        let (ix, iy, it) = g.decode(i as u32);
        let sx: i64 = ix as i64 + dx as i64;
        let sy: i64 = iy as i64 + dy as i64;
        let v: T = if sx >= 0 && sx < g.nx as i64 && sy >= 0 && sy < g.ny as i64 {
            b[g.index(sx as i32, sy as i32, it)]
        } else {
            none
        };
        let ghost before = out@;
        out.push(v);
        proof {
            assert forall|x: int, y: int, t: int|
                gg.has(x, y, t) && gg.at(x, y, t) < i + 1 implies #[trigger] at_of(
                out@,
                gg,
                x,
                y,
                t,
            ) == if on_axis(x + dx, gg.nx as int) && on_axis(y + dy, gg.ny as int) {
                at_of(b@, gg, x + dx, y + dy, t)
            } else {
                none
            } by {
                lemma_at(gg, x, y, t);
                if gg.at(x, y, t) == i {
                    crate::belief::index::lemma_at_injective(
                        gg,
                        x,
                        y,
                        t,
                        ix as int,
                        iy as int,
                        it as int,
                    );
                } else {
                    let q = at_of(before, gg, x, y, t);
                }
            }
        }
        i += 1;
    }
    proof {
        assert forall|x: int, y: int, t: int| g.has(x, y, t) implies #[trigger] at_of(
            out@,
            gg,
            x,
            y,
            t,
        ) == if on_axis(x + dx, g.nx as int) && on_axis(y + dy, g.ny as int) {
            at_of(b@, gg, x + dx, y + dy, t)
        } else {
            none
        } by {
            lemma_at(gg, x, y, t);
        }
    }
    out
}

/// The weight of the state `(x, y, t)`.
pub open spec fn at_of<T>(b: Seq<T>, g: BeliefGrid, x: int, y: int, t: int) -> T {
    b[g.at(x, y, t)]
}

/// Two states of a window lie less than `sep` columns and rows apart.
pub open spec fn close(g: BeliefGrid, a: int, b: int, sep: int) -> bool {
    let p = g.nx * g.ny;
    let n = g.nx as int;
    abs((a % p) % n - (b % p) % n) < sep && abs((a % p) / n - (b % p) / n) < sep
}

/// None of the states in `list` is close to state `i`.
pub open spec fn clear_of(g: BeliefGrid, list: Seq<u32>, i: int, sep: int) -> bool {
    forall|k: int| 0 <= k < list.len() ==> !close(g, #[trigger] list[k] as int, i, sep)
}

/// The peaks among the first `n` states of a list, `k` at most: each that is not close to
/// an earlier one.
pub open spec fn picked(g: BeliefGrid, order: Seq<u32>, k: int, sep: int, n: int) -> Seq<u32>
    decreases n,
{
    if n <= 0 {
        Seq::empty()
    } else {
        let before = picked(g, order, k, sep, n - 1);
        if before.len() < k && clear_of(g, before, order[n - 1] as int, sep) {
            before.push(order[n - 1])
        } else {
            before
        }
    }
}

/// The peaks of a window, `k` at most. `order` lists its strong states, strongest first.
pub fn top_modes(order: &Vec<u32>, g: &BeliefGrid, k: usize, sep: i32) -> (r: Vec<u32>)
    requires
        g.wf(),
        forall|i: int| 0 <= i < order@.len() ==> (#[trigger] order@[i]) < g.len(),
    ensures
        r@ == picked(*g, order@, k as int, sep as int, order@.len() as int),
{
    let ghost gg = *g;
    let mut out: Vec<u32> = Vec::new();
    let mut j: usize = 0;
    while j < order.len()
        invariant
            g.wf(),
            gg == *g,
            forall|i: int| 0 <= i < order@.len() ==> (#[trigger] order@[i]) < g.len(),
            j <= order@.len(),
            out@ == picked(gg, order@, k as int, sep as int, j as int),
            forall|i: int| 0 <= i < out@.len() ==> (#[trigger] out@[i]) < g.len(),
        decreases order.len() - j,
    {
        let c: u32 = order[j];
        assert(order@[j as int] < g.len());
        let (ix, iy, it) = g.decode(c);
        proof {
            crate::belief::index::law_decode_undoes_index(gg, ix as int, iy as int, it as int);
        }
        let mut free: bool = true;
        let mut i: usize = 0;
        while i < out.len() && free
            invariant
                g.wf(),
                gg == *g,
                forall|i: int| 0 <= i < out@.len() ==> (#[trigger] out@[i]) < g.len(),
                c < g.len(),
                gg.has(ix as int, iy as int, it as int),
                (c as int % (gg.nx * gg.ny)) % (gg.nx as int) == ix,
                (c as int % (gg.nx * gg.ny)) / (gg.nx as int) == iy,
                i <= out@.len(),
                free ==> forall|q: int|
                    0 <= q < i ==> !close(gg, #[trigger] out@[q] as int, c as int, sep as int),
                !free ==> !clear_of(gg, out@, c as int, sep as int),
            decreases out.len() - i,
        {
            assert(out@[i as int] < g.len());
            let (px, py, pt) = g.decode(out[i]);
            proof {
                crate::belief::index::law_decode_undoes_index(
                    gg,
                    px as int,
                    py as int,
                    pt as int,
                );
            }
            let dx: i32 = if px > ix {
                px - ix
            } else {
                ix - px
            };
            let dy: i32 = if py > iy {
                py - iy
            } else {
                iy - py
            };
            if dx < sep && dy < sep {
                free = false;
                assert(close(gg, out@[i as int] as int, c as int, sep as int));
            }
            i += 1;
        }
        if out.len() < k && free {
            out.push(c);
        }
        j += 1;
    }
    out
}

/// A window lies on the map, and a place of the map that it is put around lies in it, in its
/// middle wherever the borders leave room.
pub proof fn law_window_holds_its_centre(c: int, n: int, m: int)
    requires
        0 <= n <= m,
    ensures
        0 <= placed(c, n, m),
        placed(c, n, m) + n <= m,
        0 <= c < m && 0 < n ==> placed(c, n, m) <= c < placed(c, n, m) + n,
        0 < placed(c, n, m) < m - n ==> placed(c, n, m) + n / 2 == c,
        c <= n / 2 ==> placed(c, n, m) == 0,
        c - n / 2 >= m - n ==> placed(c, n, m) == m - n,
{
}

/// A cell of another level is the one that the middle of the cell lies in.
pub proof fn law_other_level_holds_the_middle(c: int, from: int, to: int)
    requires
        0 < from,
        0 < to,
    ensures
        2 * (coarse_of(c, from, to) * to) <= (2 * c + 1) * from < 2 * ((coarse_of(c, from, to) + 1)
            * to),
        from == to ==> coarse_of(c, from, to) == c,
{
    let a = (2 * c + 1) * from;
    let d = 2 * to;
    vstd::arithmetic::div_mod::lemma_fundamental_div_mod(a, d);
    vstd::arithmetic::div_mod::lemma_mod_bound(a, d);
    let q = a / d;
    assert(2 * (q * to) == d * q && 2 * ((q + 1) * to) == d * q + d) by (nonlinear_arith)
        requires
            d == 2 * to,
    ;
    if from == to {
        assert(q == c) by (nonlinear_arith)
            requires
                2 * (q * to) <= (2 * c + 1) * to < 2 * ((q + 1) * to),
                0 < to,
        ;
    }
}

/// A heading of another level is the one that the middle of the heading lies in.
pub proof fn law_other_headings_hold_the_middle(t: int, from: int, to: int)
    requires
        0 <= t < from,
        0 < to,
    ensures
        0 <= heading_of(t, from, to) < to,
        2 * (heading_of(t, from, to) * from) <= (2 * t + 1) * to < 2 * ((heading_of(t, from, to)
            + 1) * from),
        from == to ==> heading_of(t, from, to) == t,
{
    let a = (2 * t + 1) * to;
    let d = 2 * from;
    vstd::arithmetic::div_mod::lemma_fundamental_div_mod(a, d);
    vstd::arithmetic::div_mod::lemma_mod_bound(a, d);
    let q = a / d;
    assert(2 * (q * from) == d * q && 2 * ((q + 1) * from) == d * q + d) by (nonlinear_arith)
        requires
            d == 2 * from,
    ;
    assert(0 <= a < d * to) by (nonlinear_arith)
        requires
            a == (2 * t + 1) * to,
            d == 2 * from,
            0 <= t < from,
            0 < to,
    ;
    assert(0 <= q < to) by (nonlinear_arith)
        requires
            d * q <= a < d * q + d,
            0 <= a < d * to,
            0 < d,
    ;
    vstd::arithmetic::div_mod::lemma_small_mod(q as nat, to as nat);
    if from == to {
        assert(q == t) by (nonlinear_arith)
            requires
                2 * (q * to) <= (2 * t + 1) * to < 2 * ((q + 1) * to),
                0 < to,
        ;
    }
}

/// A belief that is carried over to the same window of the same level stays where it is.
pub proof fn law_same_window_keeps_states(a: Level, x0: int, y0: int, ix: int, iy: int, it: int)
    requires
        a.wf(),
        a.grid().has(ix, iy, it),
    ensures
        carried(a, x0, y0, a, x0, y0, ix, iy, it) == Some(a.grid().at(ix, iy, it)),
{
    law_other_level_holds_the_middle(x0 + ix, a.mult as int, a.mult as int);
    law_other_level_holds_the_middle(y0 + iy, a.mult as int, a.mult as int);
    law_other_headings_hold_the_middle(it, a.nt as int, a.nt as int);
}

/// A state of a window is free exactly where the cell of the map under it is, whatever its
/// heading.
pub proof fn law_window_shows_the_map(
    l: Level,
    wx0: int,
    wy0: int,
    ix: int,
    iy: int,
    it: int,
)
    requires
        l.wf(),
        l.free@.len() > 0,
        l.grid().has(ix, iy, it),
    ensures
        free_here(l, wx0, wy0, l.grid().at(ix, iy, it)) == l.free@[(wy0 + iy) * l.map_w + (wx0
            + ix)],
{
    law_decode_undoes_index(l.grid(), ix, iy, it);
}

/// Two states are close exactly where their columns and their rows differ by less than `sep`,
/// whatever their headings.
pub proof fn law_close_by_columns_and_rows(
    g: BeliefGrid,
    x1: int,
    y1: int,
    t1: int,
    x2: int,
    y2: int,
    t2: int,
    sep: int,
)
    requires
        g.wf(),
        g.has(x1, y1, t1),
        g.has(x2, y2, t2),
    ensures
        close(g, g.at(x1, y1, t1), g.at(x2, y2, t2), sep) == (abs(x1 - x2) < sep && abs(y1 - y2)
            < sep),
{
    law_decode_undoes_index(g, x1, y1, t1);
    law_decode_undoes_index(g, x2, y2, t2);
}

/// The peaks that are picked are at most `k`, keep apart from each other, and come in the
/// given order. While fewer than `k` are picked, every state is close to one of them.
pub proof fn law_picked_stand_apart(g: BeliefGrid, order: Seq<u32>, k: int, sep: int, n: int)
    requires
        0 <= n <= order.len(),
        0 <= k,
        0 < sep,
    ensures
        picked(g, order, k, sep, n).len() <= k,
        forall|a: int, b: int|
            0 <= a < b < picked(g, order, k, sep, n).len() ==> !close(
                g,
                #[trigger] picked(g, order, k, sep, n)[a] as int,
                #[trigger] picked(g, order, k, sep, n)[b] as int,
                sep,
            ),
        forall|a: int|
            0 <= a < picked(g, order, k, sep, n).len() ==> order.contains(
                #[trigger] picked(g, order, k, sep, n)[a],
            ),
        picked(g, order, k, sep, n).len() < k ==> forall|i: int|
            0 <= i < n ==> !clear_of(
                g,
                picked(g, order, k, sep, n),
                #[trigger] order[i] as int,
                sep,
            ),
        n > 0 && k > 0 ==> picked(g, order, k, sep, n).len() > 0 && picked(g, order, k, sep, n)[0]
            == order[0],
    decreases n,
{
    if n > 0 {
        law_picked_stand_apart(g, order, k, sep, n - 1);
        let p = picked(g, order, k, sep, n - 1);
        let l = picked(g, order, k, sep, n);
        if n == 1 {
            assert(p.len() == 0);
        }
        assert forall|a: int| 0 <= a < l.len() implies order.contains(#[trigger] l[a]) by {
            if a < p.len() {
                assert(order.contains(p[a]));
            } else {
                assert(order[n - 1] == l[a]);
            }
        }
        if l.len() < k {
            assert forall|i: int| 0 <= i < n implies !clear_of(
                g,
                l,
                #[trigger] order[i] as int,
                sep,
            ) by {
                if i < n - 1 {
                    assert(!clear_of(g, p, order[i] as int, sep));
                    let j = choose|j: int|
                        0 <= j < p.len() && close(g, #[trigger] p[j] as int, order[i] as int, sep);
                    assert(close(g, l[j] as int, order[i] as int, sep));
                } else if clear_of(g, p, order[i] as int, sep) {
                    assert(close(g, l[p.len() as int] as int, order[i] as int, sep));
                }
            }
        }
    }
}

/// Moving a window on and back gives back the states that stayed inside.
pub proof fn law_window_shift_and_back<T>(
    b: Seq<T>,
    mid: Seq<T>,
    new: Seq<T>,
    g: BeliefGrid,
    dx: int,
    dy: int,
    none: T,
    x: int,
    y: int,
    t: int,
)
    requires
        forall|x: int, y: int, t: int|
            g.has(x, y, t) ==> #[trigger] at_of(mid, g, x, y, t) == if on_axis(x + dx, g.nx as int)
                && on_axis(y + dy, g.ny as int) {
                at_of(b, g, x + dx, y + dy, t)
            } else {
                none
            },
        forall|x: int, y: int, t: int|
            g.has(x, y, t) ==> #[trigger] at_of(new, g, x, y, t) == if on_axis(x - dx, g.nx as int)
                && on_axis(y - dy, g.ny as int) {
                at_of(mid, g, x - dx, y - dy, t)
            } else {
                none
            },
        g.has(x, y, t),
    ensures
        at_of(new, g, x, y, t) == if on_axis(x - dx, g.nx as int) && on_axis(y - dy, g.ny as int) {
            at_of(b, g, x, y, t)
        } else {
            none
        },
{
    let p = at_of(new, g, x, y, t);
    let q = at_of(mid, g, x - dx, y - dy, t);
}

} // verus!
