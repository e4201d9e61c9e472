//! Levels of resolution. The first has the cells of the map, seen through a window; the
//! others have coarser cells and headings, and the last shows the whole map.
use vstd::prelude::*;

use crate::grid::{lemma_cell_bound, lemma_cell_injective, on_axis};

verus! {

/// Cells of the map along the side of a cell, what the number of headings is divided by,
/// and how many times fewer beams are used, for the coarser levels.
pub open spec fn coarse(i: int) -> (int, int, int) {
    if i == 1 {
        (4, 2, 2)
    } else {
        (10, 3, 4)
    }
}

/// One level of resolution.
pub struct Level {
    /// Cells of the map along the side of a cell.
    pub mult: i32,
    pub nt: i32,
    /// Size of the window, in cells of this level.
    pub nx: i32,
    pub ny: i32,
    /// The window shows the whole map.
    pub whole: bool,
    pub beam_step: usize,
    /// Size of the map, in cells of this level.
    pub map_w: i32,
    pub map_h: i32,
    /// The cells of the map that are free, row by row. The first level has none: it asks
    /// the map itself.
    pub free: Vec<bool>,
}

/// The smaller of two numbers.
pub open spec fn least_of(a: int, b: int) -> int {
    if a < b {
        a
    } else {
        b
    }
}

/// The larger of two numbers.
pub open spec fn most_of(a: int, b: int) -> int {
    if a > b {
        a
    } else {
        b
    }
}

fn least_i32(a: i32, b: i32) -> (r: i32)
    ensures
        r == least_of(a as int, b as int),
{
    if a < b {
        a
    } else {
        b
    }
}

fn most_i32(a: i32, b: i32) -> (r: i32)
    ensures
        r == most_of(a as int, b as int),
{
    if a > b {
        a
    } else {
        b
    }
}

/// Cells of `m` cells each that cover `n` cells.
pub open spec fn cover(n: int, m: int) -> int {
    (n + m - 1) / m
}

/// The coarse cell `(cx, cy)` holds a free cell of the map.
pub open spec fn holds_free(data: Seq<i8>, w: int, h: int, m: int, cx: int, cy: int) -> bool {
    exists|x: int, y: int|
        #![trigger data[y * w + x]]
        on_axis(x, w) && on_axis(y, h) && x / m == cx && y / m == cy && data[y * w + x] == 0
}

/// `free` marks the coarse cells that hold a free cell of the map.
pub open spec fn is_coarse_map(data: Seq<i8>, w: int, h: int, m: int, free: Seq<bool>) -> bool {
    let cw = cover(w, m);
    let ch = cover(h, m);
    &&& free.len() == cw * ch
    &&& forall|cx: int, cy: int|
        #![trigger free[cy * cw + cx]]
        on_axis(cx, cw) && on_axis(cy, ch) ==> free[cy * cw + cx] == holds_free(
            data,
            w,
            h,
            m,
            cx,
            cy,
        )
}

/// The first level of a map, seen through a window of `win` cells.
pub open spec fn is_fine(l: Level, w: int, h: int, win: int, bins: int, step: int) -> bool {
    &&& l.mult == 1
    &&& l.nt == most_of(bins, 1)
    &&& l.nx == least_of(win, w)
    &&& l.ny == least_of(win, h)
    &&& l.whole == (win >= w && win >= h)
    &&& l.beam_step == most_of(step, 1)
    &&& l.map_w == w
    &&& l.map_h == h
    &&& l.free@.len() == 0
}

/// Level `i` of a map, seen through a window of `win` cells.
pub open spec fn is_coarse(
    l: Level,
    i: int,
    data: Seq<i8>,
    w: int,
    h: int,
    win: int,
    bins: int,
    step: int,
) -> bool {
    let (m, tdiv, bmult) = coarse(i);
    &&& l.mult == m
    &&& l.map_w == cover(w, m)
    &&& l.map_h == cover(h, m)
    &&& l.nt == most_of(most_of(bins, 1) / tdiv, 4)
    &&& l.whole == (i == 2 || win >= cover(w, m) && win >= cover(h, m))
    &&& l.nx == if l.whole {
        cover(w, m)
    } else {
        least_of(win, cover(w, m))
    }
    &&& l.ny == if l.whole {
        cover(h, m)
    } else {
        least_of(win, cover(h, m))
    }
    &&& l.beam_step == most_of(step, 1) * bmult
    &&& is_coarse_map(data, w, h, m, l.free@)
}

proof fn lemma_cover(x: int, n: int, m: int)
    requires
        0 <= x < n,
        0 < m,
    ensures
        0 <= x / m < cover(n, m),
{
    vstd::arithmetic::div_mod::lemma_fundamental_div_mod(x, m);
    vstd::arithmetic::div_mod::lemma_mod_bound(x, m);
    vstd::arithmetic::div_mod::lemma_fundamental_div_mod(n + m - 1, m);
    vstd::arithmetic::div_mod::lemma_mod_bound(n + m - 1, m);
    let (q, c) = (x / m, cover(n, m));
    assert(0 <= q) by (nonlinear_arith)
        requires
            x == m * q + x % m,
            0 <= x,
            x % m < m,
            0 < m,
    ;
    assert(q < c) by (nonlinear_arith)
        requires
            x == m * q + x % m,
            0 <= x % m,
            n + m - 1 == m * c + (n + m - 1) % m,
            (n + m - 1) % m < m,
            x < n,
            0 < m,
    ;
}

proof fn lemma_cover_small(n: int, m: int)
    requires
        0 <= n,
        1 <= m,
    ensures
        0 <= cover(n, m) <= n,
{
    vstd::arithmetic::div_mod::lemma_fundamental_div_mod(n + m - 1, m);
    vstd::arithmetic::div_mod::lemma_mod_bound(n + m - 1, m);
    let c = cover(n, m);
    assert(0 <= c <= n) by (nonlinear_arith)
        requires
            n + m - 1 == m * c + (n + m - 1) % m,
            0 <= (n + m - 1) % m < m,
            0 <= n,
            1 <= m,
    ;
}

/// Marks the coarse cells that hold a free cell of the map.
fn coarse_map(data: &Vec<i8>, w: i32, h: i32, m: i32, cw: i32, ch: i32) -> (r: Vec<bool>)
    requires
        0 <= w,
        0 <= h,
        0 < m,
        w * h <= i32::MAX,
        data@.len() == w * h,
        cw == cover(w as int, m as int),
        ch == cover(h as int, m as int),
    ensures
        is_coarse_map(data@, w as int, h as int, m as int, r@),
{
    proof {
        lemma_cover_small(w as int, m as int);
        lemma_cover_small(h as int, m as int);
        assert(0 <= cw * ch <= w * h) by (nonlinear_arith)
            requires
                0 <= cw <= w,
                0 <= ch <= h,
        ;
    }
    let mut free: Vec<bool> = vec![false; (cw * ch) as usize];
    let ghost d = data@;
    proof {
        assert forall|cx: int, cy: int|
            on_axis(cx, cw as int) && on_axis(cy, ch as int) implies #[trigger] mark(
            free@,
            cw as int,
            cx,
            cy,
        ) == holds_before(d, w as int, h as int, m as int, cx, cy, 0, 0) by {
            lemma_cell_bound(cx, cy, cw as int, ch as int);
        }
    }
    let mut y: i32 = 0;
    while y < h
        invariant
            0 <= w,
            0 <= h,
            0 < m,
            w * h <= i32::MAX,
            d == data@,
            d.len() == w * h,
            cw == cover(w as int, m as int),
            ch == cover(h as int, m as int),
            0 <= cw * ch <= i32::MAX,
            free@.len() == cw * ch,
            0 <= y <= h,
            coarse_upto(d, w as int, h as int, m as int, free@, 0, y as int),
        decreases h - y,
    {
        let mut x: i32 = 0;
        while x < w
            invariant
                0 <= w,
                0 <= h,
                0 < m,
                w * h <= i32::MAX,
                d == data@,
                d.len() == w * h,
                cw == cover(w as int, m as int),
                ch == cover(h as int, m as int),
                0 <= cw * ch <= i32::MAX,
                free@.len() == cw * ch,
                0 <= y < h,
                0 <= x <= w,
                coarse_upto(d, w as int, h as int, m as int, free@, x as int, y as int),
            decreases w - x,
        {
            proof {
                lemma_cell_bound(x as int, y as int, w as int, h as int);
                assert(0 <= y * w) by (nonlinear_arith)
                    requires
                        0 <= y,
                        0 <= w,
                ;
                lemma_cover(x as int, w as int, m as int);
                lemma_cover(y as int, h as int, m as int);
                lemma_cell_bound(
                    x as int / m as int,
                    y as int / m as int,
                    cw as int,
                    ch as int,
                );
                assert(0 <= (y as int / m as int) * cw) by (nonlinear_arith)
                    requires
                        0 <= y as int / m as int,
                        0 <= cw,
                ;
            }
            let ghost before = free@;
            if data[(y * w + x) as usize] == 0 {
                free.set(((y / m) * cw + x / m) as usize, true);
            }
            proof {
                lemma_coarse_step(
                    d,
                    w as int,
                    h as int,
                    m as int,
                    before,
                    free@,
                    x as int,
                    y as int,
                );
            }
            x += 1;
        }
        proof {
            assert(coarse_upto(d, w as int, h as int, m as int, free@, 0, y + 1)) by {
                lemma_coarse_row(d, w as int, h as int, m as int, free@, y as int);
            }
        }
        y += 1;
    }
    proof {
        let (gw, gh, gm) = (w as int, h as int, m as int);
        assert(coarse_upto(d, gw, gh, gm, free@, 0, gh));
        assert forall|cx: int, cy: int|
            #![trigger free@[cy * cw + cx]]
            on_axis(cx, cw as int) && on_axis(cy, ch as int) implies free@[cy * cw + cx]
            == holds_free(d, gw, gh, gm, cx, cy) by {
            assert(mark(free@, cover(gw, gm), cx, cy) == holds_before(d, gw, gh, gm, cx, cy, 0, gh));
            if holds_free(d, gw, gh, gm, cx, cy) {
                let (x, y) = choose|x: int, y: int|
                    #![trigger d[y * gw + x]]
                    on_axis(x, gw) && on_axis(y, gh) && x / gm == cx && y / gm == cy && d[y * gw
                        + x] == 0;
                assert(d[y * gw + x] == 0);
            }
            if holds_before(d, gw, gh, gm, cx, cy, 0, gh) {
                let (x, y) = choose|x: int, y: int|
                    #![trigger d[y * gw + x]]
                    on_axis(x, gw) && on_axis(y, gh) && (y < gh || y == gh && x < 0) && x / gm
                        == cx && y / gm == cy && d[y * gw + x] == 0;
                assert(d[y * gw + x] == 0);
            }
        }
    }
    free
}

/// The coarse cell `(cx, cy)` holds a free cell of the map before `(x0, y0)`.
spec fn holds_before(
    data: Seq<i8>,
    w: int,
    h: int,
    m: int,
    cx: int,
    cy: int,
    x0: int,
    y0: int,
) -> bool {
    exists|x: int, y: int|
        #![trigger data[y * w + x]]
        on_axis(x, w) && on_axis(y, h) && (y < y0 || y == y0 && x < x0) && x / m == cx && y / m
            == cy && data[y * w + x] == 0
}

/// The mark of the coarse cell `(cx, cy)`.
spec fn mark(free: Seq<bool>, cw: int, cx: int, cy: int) -> bool {
    free[cy * cw + cx]
}

spec fn coarse_upto(
    data: Seq<i8>,
    w: int,
    h: int,
    m: int,
    free: Seq<bool>,
    x0: int,
    y0: int,
) -> bool {
    let cw = cover(w, m);
    let ch = cover(h, m);
    forall|cx: int, cy: int|
        on_axis(cx, cw) && on_axis(cy, ch) ==> #[trigger] mark(free, cw, cx, cy) == holds_before(
            data,
            w,
            h,
            m,
            cx,
            cy,
            x0,
            y0,
        )
}

proof fn lemma_coarse_step(
    d: Seq<i8>,
    w: int,
    h: int,
    m: int,
    before: Seq<bool>,
    free: Seq<bool>,
    x: int,
    y: int,
)
    requires
        0 < m,
        on_axis(x, w),
        on_axis(y, h),
        before.len() == cover(w, m) * cover(h, m),
        coarse_upto(d, w, h, m, before, x, y),
        free == if d[y * w + x] == 0 {
            before.update((y / m) * cover(w, m) + x / m, true)
        } else {
            before
        },
    ensures
        coarse_upto(d, w, h, m, free, x + 1, y),
{
    let cw = cover(w, m);
    let ch = cover(h, m);
    lemma_cover(x, w, m);
    lemma_cover(y, h, m);
    lemma_cell_bound(x / m, y / m, cw, ch);
    assert forall|cx: int, cy: int|
        on_axis(cx, cw) && on_axis(cy, ch) implies #[trigger] mark(free, cw, cx, cy) == holds_before(
        d,
        w,
        h,
        m,
        cx,
        cy,
        x + 1,
        y,
    ) by {
        lemma_cell_bound(cx, cy, cw, ch);
        assert(mark(before, cw, cx, cy) == holds_before(d, w, h, m, cx, cy, x, y));
        if cy * cw + cx == (y / m) * cw + x / m {
            lemma_cell_injective(cx, cy, x / m, y / m, cw);
        }
        if holds_before(d, w, h, m, cx, cy, x, y) {
            let (u, v) = choose|u: int, v: int|
                #![trigger d[v * w + u]]
                on_axis(u, w) && on_axis(v, h) && (v < y || v == y && u < x) && u / m == cx && v
                    / m == cy && d[v * w + u] == 0;
            assert(d[v * w + u] == 0);
        }
        if d[y * w + x] == 0 && cx == x / m && cy == y / m {
            assert(holds_before(d, w, h, m, cx, cy, x + 1, y));
        }
        if holds_before(d, w, h, m, cx, cy, x + 1, y) && !holds_before(d, w, h, m, cx, cy, x, y) {
            let (u, v) = choose|u: int, v: int|
                #![trigger d[v * w + u]]
                on_axis(u, w) && on_axis(v, h) && (v < y || v == y && u < x + 1) && u / m == cx
                    && v / m == cy && d[v * w + u] == 0;
            assert(d[v * w + u] == 0);
            assert(u == x && v == y);
        }
    }
}

proof fn lemma_coarse_row(d: Seq<i8>, w: int, h: int, m: int, free: Seq<bool>, y: int)
    requires
        coarse_upto(d, w, h, m, free, w, y),
    ensures
        coarse_upto(d, w, h, m, free, 0, y + 1),
{
    let cw = cover(w, m);
    let ch = cover(h, m);
    assert forall|cx: int, cy: int|
        on_axis(cx, cw) && on_axis(cy, ch) implies #[trigger] mark(free, cw, cx, cy) == holds_before(
        d,
        w,
        h,
        m,
        cx,
        cy,
        0,
        y + 1,
    ) by {
        assert(mark(free, cw, cx, cy) == holds_before(d, w, h, m, cx, cy, w, y));
        if holds_before(d, w, h, m, cx, cy, w, y) {
            let (u, v) = choose|u: int, v: int|
                #![trigger d[v * w + u]]
                on_axis(u, w) && on_axis(v, h) && (v < y || v == y && u < w) && u / m == cx && v
                    / m == cy && d[v * w + u] == 0;
            assert(d[v * w + u] == 0);
        }
        if holds_before(d, w, h, m, cx, cy, 0, y + 1) {
            let (u, v) = choose|u: int, v: int|
                #![trigger d[v * w + u]]
                on_axis(u, w) && on_axis(v, h) && (v < y + 1 || v == y + 1 && u < 0) && u / m == cx
                    && v / m == cy && d[v * w + u] == 0;
            assert(d[v * w + u] == 0);
        }
    }
}

fn coarse_level(
    data: &Vec<i8>,
    w: i32,
    h: i32,
    win: i32,
    bins: i32,
    step: usize,
    last: bool,
) -> (r: Level)
    requires
        0 <= w <= i32::MAX - 10,
        0 <= h <= i32::MAX - 10,
        w * h <= i32::MAX,
        data@.len() == w * h,
        1 <= bins,
        1 <= step,
        4 * step <= usize::MAX,
    ensures
        is_coarse(
            r,
            if last {
                2
            } else {
                1
            },
            data@,
            w as int,
            h as int,
            win as int,
            bins as int,
            step as int,
        ),
{
    let (m, tdiv, bmult): (i32, i32, usize) = if last {
        (10, 3, 4)
    } else {
        (4, 2, 2)
    };
    let map_w: i32 = (w + m - 1) / m;
    let map_h: i32 = (h + m - 1) / m;
    let nt: i32 = most_i32(bins / tdiv, 4);
    let whole: bool = last || (win >= map_w && win >= map_h);
    let (nx, ny): (i32, i32) = if whole {
        (map_w, map_h)
    } else {
        (least_i32(win, map_w), least_i32(win, map_h))
    };
    let free: Vec<bool> = coarse_map(data, w, h, m, map_w, map_h);
    Level { mult: m, nt, nx, ny, whole, beam_step: step * bmult, map_w, map_h, free }
}

/// The levels of a map seen through a window of `win` cells: the fine one alone, or the
/// coarser ones too.
pub fn build_levels(
    data: &Vec<i8>,
    w: i32,
    h: i32,
    win: i32,
    bins: i32,
    step: usize,
    coarser: bool,
) -> (r: Vec<Level>)
    requires
        0 <= w <= i32::MAX - 10,
        0 <= h <= i32::MAX - 10,
        w * h <= i32::MAX,
        data@.len() == w * h,
        4 * step <= usize::MAX,
    ensures
        r@.len() == if coarser {
            3int
        } else {
            1int
        },
        is_fine(r@[0], w as int, h as int, win as int, bins as int, step as int),
        coarser ==> is_coarse(
            r@[1],
            1,
            data@,
            w as int,
            h as int,
            win as int,
            bins as int,
            step as int,
        ) && is_coarse(
            r@[2],
            2,
            data@,
            w as int,
            h as int,
            win as int,
            bins as int,
            step as int,
        ),
{
    let nt: i32 = most_i32(bins, 1);
    let beam_step: usize = if step < 1 {
        1
    } else {
        step
    };
    let mut out: Vec<Level> = Vec::new();
    out.push(
        Level {
            mult: 1,
            nt,
            nx: least_i32(win, w),
            ny: least_i32(win, h),
            whole: win >= w && win >= h,
            beam_step,
            map_w: w,
            map_h: h,
            free: Vec::new(),
        },
    );
    if coarser {
        out.push(coarse_level(data, w, h, win, nt, beam_step, false));
        out.push(coarse_level(data, w, h, win, nt, beam_step, true));
    }
    out
}

/// The cells of a level are just enough to cover the map: the last one is needed.
pub proof fn law_cover_is_tight(n: int, m: int)
    requires
        0 <= n,
        0 < m,
    ensures
        cover(n, m) * m >= n,
        (cover(n, m) - 1) * m < n,
        cover(n, m) >= 0,
        m == 1 ==> cover(n, m) == n,
{
    let t = n + m - 1;
    let c = t / m;
    vstd::arithmetic::div_mod::lemma_fundamental_div_mod(t, m);
    vstd::arithmetic::div_mod::lemma_mod_bound(t, m);
    assert(c * m == m * c && (c - 1) * m == m * c - m) by (nonlinear_arith);
    assert(c >= 0) by (nonlinear_arith)
        requires
            t == m * c + t % m,
            t % m < m,
            0 <= t,
            0 < m,
    ;
}

/// A coarse cell is free exactly where one of the cells of the map under it is.
pub proof fn law_coarse_cell_shows_free_cells(
    data: Seq<i8>,
    w: int,
    h: int,
    m: int,
    free: Seq<bool>,
    cx: int,
    cy: int,
)
    requires
        0 < m,
        is_coarse_map(data, w, h, m, free),
        on_axis(cx, cover(w, m)),
        on_axis(cy, cover(h, m)),
    ensures
        free[cy * cover(w, m) + cx] <==> exists|x: int, y: int|
            #![trigger data[y * w + x]]
            0 <= x < w && 0 <= y < h && cx * m <= x < (cx + 1) * m && cy * m <= y < (cy + 1) * m
                && data[y * w + x] == 0,
{
    if holds_free(data, w, h, m, cx, cy) {
        let (x, y) = choose|x: int, y: int|
            #![trigger data[y * w + x]]
            on_axis(x, w) && on_axis(y, h) && x / m == cx && y / m == cy && data[y * w + x] == 0;
        lemma_under(x, cx, m);
        lemma_under(y, cy, m);
        assert(data[y * w + x] == 0);
    }
    if exists|x: int, y: int|
        #![trigger data[y * w + x]]
        0 <= x < w && 0 <= y < h && cx * m <= x < (cx + 1) * m && cy * m <= y < (cy + 1) * m
            && data[y * w + x] == 0 {
        let (x, y) = choose|x: int, y: int|
            #![trigger data[y * w + x]]
            0 <= x < w && 0 <= y < h && cx * m <= x < (cx + 1) * m && cy * m <= y < (cy + 1) * m
                && data[y * w + x] == 0;
        lemma_under(x, cx, m);
        lemma_under(y, cy, m);
        assert(data[y * w + x] == 0);
    }
}

proof fn lemma_under(x: int, c: int, m: int)
    requires
        0 < m,
    ensures
        x / m == c <==> c * m <= x < (c + 1) * m,
{
    vstd::arithmetic::div_mod::lemma_fundamental_div_mod(x, m);
    vstd::arithmetic::div_mod::lemma_mod_bound(x, m);
    let q = x / m;
    assert(q * m <= x < (q + 1) * m) by (nonlinear_arith)
        requires
            x == m * q + x % m,
            0 <= x % m,
            x % m < m,
    ;
    assert(c * m <= x < (c + 1) * m ==> c == q) by (nonlinear_arith)
        requires
            q * m <= x < (q + 1) * m,
            0 < m,
    ;
}

/// The first coarser level has cells of four by four, half the headings and half the beams;
/// the second has cells of ten by ten, a third of the headings and a quarter of the beams,
/// and shows the whole map.
pub proof fn law_levels_grow_coarser(
    l: Level,
    data: Seq<i8>,
    w: int,
    h: int,
    win: int,
    bins: int,
    step: int,
)
    requires
        0 <= w,
        0 <= h,
        12 <= bins,
        1 <= step,
    ensures
        is_coarse(l, 1, data, w, h, win, bins, step) ==> {
            &&& l.mult == 4
            &&& 2 * l.nt <= bins < 2 * (l.nt + 1)
            &&& l.beam_step == 2 * step
            &&& l.nx <= win || l.whole
            &&& 4 * l.map_w >= w > 4 * (l.map_w - 1)
            &&& 4 * l.map_h >= h > 4 * (l.map_h - 1)
        },
        is_coarse(l, 2, data, w, h, win, bins, step) ==> {
            &&& l.mult == 10
            &&& 3 * l.nt <= bins < 3 * (l.nt + 1)
            &&& l.beam_step == 4 * step
            &&& l.whole && l.nx == l.map_w && l.ny == l.map_h
            &&& 10 * l.map_w >= w > 10 * (l.map_w - 1)
            &&& 10 * l.map_h >= h > 10 * (l.map_h - 1)
        },
{
    law_cover_is_tight(w, 10);
    law_cover_is_tight(h, 10);
    assert(coarse(2) == (10int, 3int, 4int));
    if is_coarse(l, 2, data, w, h, win, bins, step) {
        assert(l.mult == 10 && l.whole);
        assert(l.beam_step == step * 4);
        assert(l.nt == bins / 3);
        assert(l.map_w == cover(w, 10) && l.map_h == cover(h, 10));
        assert(l.nx == cover(w, 10) && l.ny == cover(h, 10));
    }
    assert(3 * (bins / 3) <= bins < 3 * (bins / 3 + 1));
}

} // verus!
