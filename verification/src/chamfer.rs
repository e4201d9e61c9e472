//! Distance to the nearest obstacle, by two sweeps over a grid.
use vstd::prelude::*;

use crate::grid::{lemma_cell_bound, lemma_cell_injective, on_axis};

verus! {

/// Magnitude of a number.
pub open spec fn abs(a: int) -> int {
    if a < 0 {
        -a
    } else {
        a
    }
}

/// Length of the shortest way over cells that share a side or a corner, where a step
/// over a side costs `side` and one over a corner `corner`.
pub open spec fn octile(dx: int, dy: int, side: int, corner: int) -> int {
    let (a, b) = (abs(dx), abs(dy));
    if a <= b {
        a * corner + (b - a) * side
    } else {
        b * corner + (a - b) * side
    }
}

/// Two costs of a step that make the direct way the shortest.
pub open spec fn steps_ok(side: int, corner: int) -> bool {
    0 < side <= corner <= 2 * side
}

/// `r` is how far the cell `(x, y)` is from the nearest obstacle, but `cap` at most.
pub open spec fn is_distance(
    obstacles: Seq<bool>,
    w: int,
    h: int,
    side: int,
    corner: int,
    cap: int,
    x: int,
    y: int,
    r: int,
) -> bool {
    &&& r <= cap
    &&& forall|u: int, v: int|
        #![trigger obstacles[v * w + u]]
        on_axis(u, w) && on_axis(v, h) && obstacles[v * w + u] ==> r <= octile(
            x - u,
            y - v,
            side,
            corner,
        )
    &&& r == cap || exists|u: int, v: int|
        #![trigger obstacles[v * w + u]]
        on_axis(u, w) && on_axis(v, h) && obstacles[v * w + u] && r == octile(
            x - u,
            y - v,
            side,
            corner,
        )
}

/// Some obstacle is at most `r` away from the cell `(x, y)`.
spec fn sound(
    obstacles: Seq<bool>,
    w: int,
    h: int,
    side: int,
    corner: int,
    x: int,
    y: int,
    r: int,
) -> bool {
    exists|u: int, v: int| #[trigger]
        hits(obstacles, w, h, side, corner, x, y, r, u, v)
}

spec fn hits(
    obstacles: Seq<bool>,
    w: int,
    h: int,
    side: int,
    corner: int,
    x: int,
    y: int,
    r: int,
    u: int,
    v: int,
) -> bool {
    on_axis(u, w) && on_axis(v, h) && obstacles[v * w + u] && octile(x - u, y - v, side, corner)
        <= r
}

proof fn lemma_step(dx: int, dy: int, ex: int, ey: int, side: int, corner: int)
    requires
        steps_ok(side, corner),
        -1 <= ex <= 1,
        -1 <= ey <= 1,
    ensures
        octile(dx + ex, dy + ey, side, corner) <= octile(dx, dy, side, corner) + if ex == 0
            && ey == 0 {
            0
        } else if ex == 0 || ey == 0 {
            side
        } else {
            corner
        },
{
    let (a, b) = (abs(dx), abs(dy));
    let (c, d) = (abs(dx + ex), abs(dy + ey));
    let (s, g) = (side, corner);
    if a <= b {
        if c <= d {
            assert(c * g + (d - c) * s - (a * g + (b - a) * s) == (c - a) * (g - s) + (d - b) * s)
                by (nonlinear_arith);
        } else {
            assert(d * g + (c - d) * s - (a * g + (b - a) * s) == (d - a) * (g - s) + (c - b) * s)
                by (nonlinear_arith);
        }
    } else {
        if c <= d {
            assert(c * g + (d - c) * s - (b * g + (a - b) * s) == (c - b) * (g - s) + (d - a) * s)
                by (nonlinear_arith);
        } else {
            assert(d * g + (c - d) * s - (b * g + (a - b) * s) == (d - b) * (g - s) + (c - a) * s)
                by (nonlinear_arith);
        }
    }
    let (p, q) = if a <= b {
        if c <= d {
            (c - a, d - b)
        } else {
            (d - a, c - b)
        }
    } else {
        if c <= d {
            (c - b, d - a)
        } else {
            (d - b, c - a)
        }
    };
    assert(-2 <= p <= 2 && -2 <= q <= 2);
    assert(p * (g - s) == if p == -2 {
        -2 * (g - s)
    } else if p == -1 {
        -(g - s)
    } else if p == 0 {
        0
    } else if p == 1 {
        g - s
    } else {
        2 * (g - s)
    }) by (nonlinear_arith)
        requires
            -2 <= p <= 2,
    ;
    assert(q * s == if q == -2 {
        -2 * s
    } else if q == -1 {
        -s
    } else if q == 0 {
        0
    } else if q == 1 {
        s
    } else {
        2 * s
    }) by (nonlinear_arith)
        requires
            -2 <= q <= 2,
    ;
}

/// A way that leads over corners alone.
proof fn lemma_diagonal(dx: int, dy: int, n: int, side: int, corner: int)
    requires
        abs(dx) == n,
        abs(dy) == n,
    ensures
        octile(dx, dy, side, corner) == n * corner,
{
    assert(n * corner + (n - n) * side == n * corner) by (nonlinear_arith);
}

/// The value of the cell `(x, y)`.
spec fn cell(d: Seq<u32>, w: int, x: int, y: int) -> int {
    d[y * w + x] as int
}

/// The grid, its obstacles and the costs of a step.
struct Frame {
    obstacles: Seq<bool>,
    w: int,
    h: int,
    side: int,
    corner: int,
    cap: int,
}

impl Frame {
    spec fn wf(self) -> bool {
        &&& 0 <= self.w
        &&& 0 <= self.h
        &&& self.obstacles.len() == self.w * self.h
        &&& steps_ok(self.side, self.corner)
        &&& self.cap + self.corner <= u32::MAX
        &&& 0 <= self.cap
    }

    spec fn on(self, x: int, y: int) -> bool {
        on_axis(x, self.w) && on_axis(y, self.h)
    }

    /// The value `r` of the cell `(x, y)` is not too small.
    spec fn backed(self, x: int, y: int, r: int) -> bool {
        r == self.cap || sound(
            self.obstacles,
            self.w,
            self.h,
            self.side,
            self.corner,
            x,
            y,
            r,
        )
    }

    /// No value is too small, and obstacles have none.
    spec fn good(self, d: Seq<u32>) -> bool {
        &&& d.len() == self.obstacles.len()
        &&& forall|x: int, y: int|
            self.on(x, y) ==> {
                let r = #[trigger] cell(d, self.w, x, y);
                &&& 0 <= r <= self.cap
                &&& self.backed(x, y, r)
                &&& self.obstacles[y * self.w + x] ==> r == 0
            }
    }

    /// The cell `(x, y)` is no farther than a step from its left and upper neighbours.
    spec fn after_upper(self, d: Seq<u32>, x: int, y: int) -> bool {
        let r = cell(d, self.w, x, y);
        &&& x > 0 ==> r <= cell(d, self.w, x - 1, y) + self.side
        &&& y > 0 ==> r <= cell(d, self.w, x, y - 1) + self.side
        &&& x > 0 && y > 0 ==> r <= cell(d, self.w, x - 1, y - 1) + self.corner
        &&& x < self.w - 1 && y > 0 ==> r <= cell(d, self.w, x + 1, y - 1) + self.corner
    }

    /// The cell `(x, y)` is no farther than a step from its right and lower neighbours.
    spec fn after_lower(self, d: Seq<u32>, x: int, y: int) -> bool {
        let r = cell(d, self.w, x, y);
        &&& x < self.w - 1 ==> r <= cell(d, self.w, x + 1, y) + self.side
        &&& y < self.h - 1 ==> r <= cell(d, self.w, x, y + 1) + self.side
        &&& x < self.w - 1 && y < self.h - 1 ==> r <= cell(d, self.w, x + 1, y + 1)
            + self.corner
        &&& x > 0 && y < self.h - 1 ==> r <= cell(d, self.w, x - 1, y + 1) + self.corner
    }

    /// The first sweep is done up to, but without, `(x, y)`.
    spec fn swept_down(self, d: Seq<u32>, x: int, y: int) -> bool {
        forall|u: int, v: int|
            self.on(u, v) && (v < y || v == y && u < x) ==> #[trigger] self.after_upper(d, u, v)
    }

    /// The second sweep, over the result `e` of the first, is done down to, but without,
    /// `(x, y)`.
    spec fn swept_up(self, d: Seq<u32>, e: Seq<u32>, x: int, y: int) -> bool {
        &&& forall|u: int, v: int|
            self.on(u, v) && (v > y || v == y && u > x) ==> #[trigger] self.after_lower(d, u, v)
        &&& forall|u: int, v: int|
            self.on(u, v) ==> #[trigger] cell(d, self.w, u, v) <= cell(e, self.w, u, v)
    }
}

/// A step from a cell whose value is not too small gives a value that is not.
proof fn lemma_backed(f: Frame, x: int, y: int, ex: int, ey: int, r: int, step: int)
    requires
        f.wf(),
        f.backed(x, y, r),
        0 <= r <= f.cap,
        -1 <= ex <= 1,
        -1 <= ey <= 1,
        ex != 0 || ey != 0,
        step == if ex == 0 || ey == 0 {
            f.side
        } else {
            f.corner
        },
        r + step < f.cap,
    ensures
        f.backed(x + ex, y + ey, r + step),
{
    let (u, v) = choose|u: int, v: int| #[trigger]
        hits(f.obstacles, f.w, f.h, f.side, f.corner, x, y, r, u, v);
    lemma_step(x - u, y - v, ex, ey, f.side, f.corner);
    assert(x + ex - u == x - u + ex && y + ey - v == y - v + ey);
    assert(hits(f.obstacles, f.w, f.h, f.side, f.corner, x + ex, y + ey, r + step, u, v));
}

/// Writing one cell leaves the others.
proof fn lemma_write(f: Frame, d: Seq<u32>, x: int, y: int, r: u32)
    requires
        f.wf(),
        d.len() == f.obstacles.len(),
        f.on(x, y),
    ensures
        d.update(y * f.w + x, r).len() == d.len(),
        forall|u: int, v: int|
            f.on(u, v) ==> #[trigger] cell(d.update(y * f.w + x, r), f.w, u, v) == if u == x && v
                == y {
                r as int
            } else {
                cell(d, f.w, u, v)
            },
{
    lemma_cell_bound(x, y, f.w, f.h);
    assert forall|u: int, v: int| f.on(u, v) implies #[trigger] cell(
        d.update(y * f.w + x, r),
        f.w,
        u,
        v,
    ) == if u == x && v == y {
        r as int
    } else {
        cell(d, f.w, u, v)
    } by {
        lemma_cell_bound(u, v, f.w, f.h);
        if v * f.w + u == y * f.w + x {
            lemma_cell_injective(u, v, x, y, f.w);
        }
    }
}

/// The lower of `v` and a step more than the cell `(x, y)` has.
fn over(d: &Vec<u32>, w: i32, x: i32, y: i32, step: u32, v: u32) -> (r: u32)
    requires
        0 <= x < w,
        0 <= y,
        y * w + x < d@.len(),
        y * w + x <= i32::MAX,
        cell(d@, w as int, x as int, y as int) + step <= u32::MAX,
    ensures
        r == v || r == cell(d@, w as int, x as int, y as int) + step,
        r <= v,
        r <= cell(d@, w as int, x as int, y as int) + step,
{
    assert(0 <= y * w) by (nonlinear_arith)
        requires
            0 <= y,
            0 <= w,
    ;
    let n: u32 = d[(y * w + x) as usize] + step;
    if n < v {
        n
    } else {
        v
    }
}

proof fn lemma_down(f: Frame, d: Seq<u32>, x: int, y: int, r: u32)
    requires
        f.wf(),
        f.good(d),
        f.on(x, y),
        f.swept_down(d, x, y),
        r <= cell(d, f.w, x, y),
        f.backed(x, y, r as int),
        x > 0 ==> r <= cell(d, f.w, x - 1, y) + f.side,
        y > 0 ==> r <= cell(d, f.w, x, y - 1) + f.side,
        x > 0 && y > 0 ==> r <= cell(d, f.w, x - 1, y - 1) + f.corner,
        x < f.w - 1 && y > 0 ==> r <= cell(d, f.w, x + 1, y - 1) + f.corner,
    ensures
        f.good(d.update(y * f.w + x, r)),
        f.swept_down(d.update(y * f.w + x, r), x + 1, y),
{
    let e = d.update(y * f.w + x, r);
    lemma_write(f, d, x, y, r);
    assert forall|u: int, v: int| f.on(u, v) implies {
        let q = #[trigger] cell(e, f.w, u, v);
        &&& 0 <= q <= f.cap
        &&& f.backed(u, v, q)
        &&& f.obstacles[v * f.w + u] ==> q == 0
    } by {
        let q = cell(d, f.w, u, v);
    }
    assert forall|u: int, v: int|
        f.on(u, v) && (v < y || v == y && u < x + 1) implies #[trigger] f.after_upper(e, u, v) by {
        if u != x || v != y {
            assert(f.after_upper(d, u, v));
        }
        let a = cell(e, f.w, u, v);
        let b = cell(e, f.w, u - 1, v);
        let c = cell(e, f.w, u, v - 1);
        let g = cell(e, f.w, u - 1, v - 1);
        let k = cell(e, f.w, u + 1, v - 1);
    }
}

proof fn lemma_up(f: Frame, d: Seq<u32>, first: Seq<u32>, x: int, y: int, r: u32)
    requires
        f.wf(),
        f.good(d),
        f.on(x, y),
        f.swept_up(d, first, x, y),
        r <= cell(d, f.w, x, y),
        f.backed(x, y, r as int),
        x < f.w - 1 ==> r <= cell(d, f.w, x + 1, y) + f.side,
        y < f.h - 1 ==> r <= cell(d, f.w, x, y + 1) + f.side,
        x < f.w - 1 && y < f.h - 1 ==> r <= cell(d, f.w, x + 1, y + 1) + f.corner,
        x > 0 && y < f.h - 1 ==> r <= cell(d, f.w, x - 1, y + 1) + f.corner,
    ensures
        f.good(d.update(y * f.w + x, r)),
        f.swept_up(d.update(y * f.w + x, r), first, x - 1, y),
{
    let e = d.update(y * f.w + x, r);
    lemma_write(f, d, x, y, r);
    assert forall|u: int, v: int| f.on(u, v) implies {
        let q = #[trigger] cell(e, f.w, u, v);
        &&& 0 <= q <= f.cap
        &&& f.backed(u, v, q)
        &&& f.obstacles[v * f.w + u] ==> q == 0
    } by {
        let q = cell(d, f.w, u, v);
    }
    assert forall|u: int, v: int|
        f.on(u, v) && (v > y || v == y && u > x - 1) implies #[trigger] f.after_lower(e, u, v) by {
        if u != x || v != y {
            assert(f.after_lower(d, u, v));
        }
        let a = cell(e, f.w, u, v);
        let b = cell(e, f.w, u + 1, v);
        let c = cell(e, f.w, u, v + 1);
        let g = cell(e, f.w, u + 1, v + 1);
        let k = cell(e, f.w, u - 1, v + 1);
    }
    assert forall|u: int, v: int| f.on(u, v) implies #[trigger] cell(e, f.w, u, v) <= cell(
        first,
        f.w,
        u,
        v,
    ) by {
        let q = cell(d, f.w, u, v);
    }
}

/// Ways that only lead right and down cost what the first sweep found, at most.
proof fn lemma_down_path(f: Frame, d: Seq<u32>, u: int, v: int, x: int, y: int)
    requires
        f.wf(),
        f.good(d),
        f.swept_down(d, 0, f.h),
        f.on(u, v),
        f.on(x, y),
        f.obstacles[v * f.w + u],
        v <= y,
        abs(x - u) <= y - v || x >= u,
    ensures
        cell(d, f.w, x, y) <= octile(x - u, y - v, f.side, f.corner),
    decreases abs(x - u) + (y - v),
{
    let (dx, dy) = (x - u, y - v);
    let (s, g) = (f.side, f.corner);
    if dx == 0 && dy == 0 {
        assert(cell(d, f.w, x, y) == 0);
        assert(octile(0, 0, s, g) == 0);
    } else {
        assert(f.after_upper(d, x, y));
        if abs(dx) == dy {
            if dx > 0 {
                lemma_down_path(f, d, u, v, x - 1, y - 1);
                lemma_diagonal(dx - 1, dy - 1, dy - 1, s, g);
            } else {
                lemma_down_path(f, d, u, v, x + 1, y - 1);
                lemma_diagonal(dx + 1, dy - 1, dy - 1, s, g);
            }
            assert((dy - 1) * g + g == dy * g) by (nonlinear_arith);
            lemma_diagonal(dx, dy, dy, s, g);
        } else if abs(dx) < dy {
            lemma_down_path(f, d, u, v, x, y - 1);
            assert((dy - 1 - abs(dx)) * s + s == (dy - abs(dx)) * s) by (nonlinear_arith);
        } else {
            lemma_down_path(f, d, u, v, x - 1, y);
            if dx - 1 == dy {
                lemma_diagonal(dx - 1, dy, dy, s, g);
                assert((dx - dy) * s == s) by (nonlinear_arith)
                    requires
                        dx - dy == 1,
                ;
            } else {
                assert((dx - 1 - dy) * s + s == (dx - dy) * s) by (nonlinear_arith);
            }
        }
    }
}

/// Steps to the left cost a side each.
proof fn lemma_left(f: Frame, d: Seq<u32>, x: int, y: int, n: int)
    requires
        f.wf(),
        f.good(d),
        forall|u: int, v: int| f.on(u, v) ==> #[trigger] f.after_lower(d, u, v),
        f.on(x, y),
        f.on(x - n, y),
        0 <= n,
    ensures
        cell(d, f.w, x - n, y) <= cell(d, f.w, x, y) + n * f.side,
    decreases n,
{
    if n > 0 {
        lemma_left(f, d, x, y, n - 1);
        assert(f.after_lower(d, x - n, y));
        assert(x - n + 1 == x - (n - 1));
        assert((n - 1) * f.side + f.side == n * f.side) by (nonlinear_arith);
    }
}

/// Steps to the right and up cost a corner each.
proof fn lemma_right_up(f: Frame, d: Seq<u32>, x: int, y: int, n: int)
    requires
        f.wf(),
        f.good(d),
        forall|u: int, v: int| f.on(u, v) ==> #[trigger] f.after_lower(d, u, v),
        f.on(x, y),
        f.on(x + n, y - n),
        0 <= n,
    ensures
        cell(d, f.w, x + n, y - n) <= cell(d, f.w, x, y) + n * f.corner,
    decreases n,
{
    if n > 0 {
        lemma_right_up(f, d, x, y, n - 1);
        assert(f.after_lower(d, x + n, y - n));
        assert(x + n - 1 == x + (n - 1) && y - n + 1 == y - (n - 1));
        assert((n - 1) * f.corner + f.corner == n * f.corner) by (nonlinear_arith);
    }
}

/// Ways that only lead left and up cost what the second sweep found, at most.
proof fn lemma_up_path(f: Frame, d: Seq<u32>, u: int, v: int, x: int, y: int)
    requires
        f.wf(),
        f.good(d),
        forall|a: int, b: int| f.on(a, b) ==> #[trigger] f.after_lower(d, a, b),
        f.on(u, v),
        f.on(x, y),
        f.obstacles[v * f.w + u],
        y <= v,
        abs(x - u) <= v - y || x <= u,
    ensures
        cell(d, f.w, x, y) <= octile(x - u, y - v, f.side, f.corner),
    decreases abs(x - u) + (v - y),
{
    let (dx, dy) = (x - u, v - y);
    let (s, g) = (f.side, f.corner);
    if dx == 0 && dy == 0 {
        assert(cell(d, f.w, x, y) == 0);
        assert(octile(0, 0, s, g) == 0);
    } else {
        assert(f.after_lower(d, x, y));
        if abs(dx) == dy {
            if dx > 0 {
                lemma_up_path(f, d, u, v, x - 1, y + 1);
                lemma_diagonal(dx - 1, -(dy - 1), dy - 1, s, g);
            } else {
                lemma_up_path(f, d, u, v, x + 1, y + 1);
                lemma_diagonal(dx + 1, -(dy - 1), dy - 1, s, g);
            }
            assert((dy - 1) * g + g == dy * g) by (nonlinear_arith);
            lemma_diagonal(dx, -dy, dy, s, g);
        } else if abs(dx) < dy {
            lemma_up_path(f, d, u, v, x, y + 1);
            assert((dy - 1 - abs(dx)) * s + s == (dy - abs(dx)) * s) by (nonlinear_arith);
        } else {
            lemma_up_path(f, d, u, v, x + 1, y);
            let n = -dx;
            if n - 1 == dy {
                lemma_diagonal(dx + 1, -dy, dy, s, g);
                assert((n - dy) * s == s) by (nonlinear_arith)
                    requires
                        n - dy == 1,
                ;
            } else {
                assert((n - 1 - dy) * s + s == (n - dy) * s) by (nonlinear_arith);
            }
        }
    }
}

/// After both sweeps no cell is farther from an obstacle than the direct way.
proof fn lemma_direct(f: Frame, first: Seq<u32>, d: Seq<u32>, u: int, v: int, x: int, y: int)
    requires
        f.wf(),
        f.good(first),
        f.swept_down(first, 0, f.h),
        f.good(d),
        f.swept_up(d, first, f.w - 1, -1),
        f.on(u, v),
        f.on(x, y),
        f.obstacles[v * f.w + u],
    ensures
        cell(d, f.w, x, y) <= octile(x - u, y - v, f.side, f.corner),
{
    assert forall|a: int, b: int| f.on(a, b) implies #[trigger] f.after_lower(d, a, b) by {}
    let (dx, dy) = (x - u, y - v);
    if y >= v && (abs(dx) <= dy || dx >= 0) {
        lemma_down_path(f, first, u, v, x, y);
        assert(cell(d, f.w, x, y) <= cell(first, f.w, x, y));
    } else if y <= v && (abs(dx) <= -dy || dx <= 0) {
        lemma_up_path(f, d, u, v, x, y);
    } else if y >= v {
        // To the lower left: corners down, then sides.
        let m = u - dy;
        lemma_down_path(f, first, u, v, m, y);
        assert(cell(d, f.w, m, y) <= cell(first, f.w, m, y));
        lemma_left(f, d, m, y, -dx - dy);
        assert(m - (-dx - dy) == x);
        lemma_diagonal(m - u, dy, dy, f.side, f.corner);
    } else {
        // To the upper right: sides, then corners up.
        let n = -dy;
        let m = u + (dx - n);
        lemma_down_path(f, first, u, v, m, v);
        assert(cell(d, f.w, m, v) <= cell(first, f.w, m, v));
        lemma_right_up(f, d, m, v, n);
        assert(m + n == x && v - n == y);
        assert(octile(m - u, 0, f.side, f.corner) == (dx - n) * f.side) by {
            if dx - n == 0 {
                assert((dx - n) * f.side == 0) by (nonlinear_arith)
                    requires
                        dx - n == 0,
                ;
            }
        }
    }
}

/// The first sweep: every cell is compared with its left and upper neighbours.
fn sweep_down(
    d: &mut Vec<u32>,
    w: i32,
    h: i32,
    side: u32,
    corner: u32,
    Ghost(f): Ghost<Frame>,
)
    requires
        f.wf(),
        f.w == w,
        f.h == h,
        f.side == side,
        f.corner == corner,
        w * h <= i32::MAX,
        f.good(old(d)@),
    ensures
        f.good(final(d)@),
        f.swept_down(final(d)@, 0, f.h),
{
    let mut y: i32 = 0;
    while y < h
        invariant
            f.wf(),
            f.w == w,
            f.h == h,
            f.side == side,
            f.corner == corner,
            w * h <= i32::MAX,
            0 <= y <= h,
            f.good(d@),
            f.swept_down(d@, 0, y as int),
        decreases h - y,
    {
        let mut x: i32 = 0;
        while x < w
            invariant
                f.wf(),
                f.w == w,
                f.h == h,
                f.side == side,
                f.corner == corner,
                w * h <= i32::MAX,
                0 <= y < h,
                0 <= x <= w,
                f.good(d@),
                f.swept_down(d@, x as int, y as int),
            decreases w - x,
        {
            proof {
                lemma_room(f, x as int, y as int);
                let a = cell(d@, f.w, x as int, y as int);
                let b = cell(d@, f.w, x - 1, y as int);
                let c = cell(d@, f.w, x as int, y - 1);
                let e = cell(d@, f.w, x - 1, y - 1);
                let k = cell(d@, f.w, x + 1, y - 1);
                assert(f.on(x as int, y as int));
                assert(x > 0 ==> f.on(x - 1, y - 0));
                assert(y > 0 ==> f.on(x - 0, y - 1));
                assert(x > 0 && y > 0 ==> f.on(x - 1, y - 1));
                assert(x < w - 1 && y > 0 ==> f.on(x - (-1), y - 1));
                lemma_offers(f, d@, x as int, y as int);
            }
            let i: usize = (y * w + x) as usize;
            let mut v: u32 = d[i];
            if x > 0 {
                v = over(d, w, x - 1, y, side, v);
            }
            if y > 0 {
                v = over(d, w, x, y - 1, side, v);
                if x > 0 {
                    v = over(d, w, x - 1, y - 1, corner, v);
                }
                if x < w - 1 {
                    v = over(d, w, x + 1, y - 1, corner, v);
                }
            }
            proof {
                lemma_down(f, d@, x as int, y as int, v);
            }
            d.set(i, v);
            x += 1;
        }
        y += 1;
    }
}

/// A cell and its neighbours have places in the list.
proof fn lemma_room(f: Frame, x: int, y: int)
    requires
        f.wf(),
        f.on(x, y),
        f.w * f.h <= i32::MAX,
    ensures
        forall|u: int, v: int|
            #[trigger] f.on(u, v) ==> 0 <= v * f.w && 0 <= v * f.w + u < f.obstacles.len()
                && v * f.w + u < i32::MAX,
{
    assert forall|u: int, v: int| #[trigger] f.on(u, v) implies 0 <= v * f.w && 0 <= v * f.w + u
        < f.obstacles.len() && v * f.w + u < i32::MAX by {
        lemma_cell_bound(u, v, f.w, f.h);
        assert(0 <= v * f.w) by (nonlinear_arith)
            requires
                0 <= v,
                0 <= f.w,
        ;
    }
}

/// A step more than a neighbour has is not too small for the cell `(x, y)`.
proof fn lemma_offers(f: Frame, d: Seq<u32>, x: int, y: int)
    requires
        f.wf(),
        f.good(d),
        f.on(x, y),
    ensures
        forall|ex: int, ey: int|
            -1 <= ex <= 1 && -1 <= ey <= 1 && (ex != 0 || ey != 0) && #[trigger] f.on(
                x - ex,
                y - ey,
            ) ==> {
                let r = cell(d, f.w, x - ex, y - ey) + if ex == 0 || ey == 0 {
                    f.side
                } else {
                    f.corner
                };
                r >= f.cap || f.backed(x, y, r)
            },
{
    assert forall|ex: int, ey: int|
        -1 <= ex <= 1 && -1 <= ey <= 1 && (ex != 0 || ey != 0) && #[trigger] f.on(
            x - ex,
            y - ey,
        ) implies {
        let r = cell(d, f.w, x - ex, y - ey) + if ex == 0 || ey == 0 {
            f.side
        } else {
            f.corner
        };
        r >= f.cap || f.backed(x, y, r)
    } by {
        let q = cell(d, f.w, x - ex, y - ey);
        let step = if ex == 0 || ey == 0 {
            f.side
        } else {
            f.corner
        };
        if q + step < f.cap {
            lemma_backed(f, x - ex, y - ey, ex, ey, q, step);
            assert(x - ex + ex == x && y - ey + ey == y);
        }
    }
}

/// The second sweep: every cell is compared with its right and lower neighbours.
fn sweep_up(
    d: &mut Vec<u32>,
    w: i32,
    h: i32,
    side: u32,
    corner: u32,
    Ghost(f): Ghost<Frame>,
)
    requires
        f.wf(),
        f.w == w,
        f.h == h,
        f.side == side,
        f.corner == corner,
        w * h <= i32::MAX,
        f.good(old(d)@),
    ensures
        f.good(final(d)@),
        f.swept_up(final(d)@, old(d)@, f.w - 1, -1),
{
    let ghost first = d@;
    let mut y: i32 = h;
    while y > 0
        invariant
            f.wf(),
            f.w == w,
            f.h == h,
            f.side == side,
            f.corner == corner,
            w * h <= i32::MAX,
            0 <= y <= h,
            f.good(d@),
            f.swept_up(d@, first, f.w - 1, y - 1),
        decreases y,
    {
        y -= 1;
        let mut x: i32 = w;
        while x > 0
            invariant
                f.wf(),
                f.w == w,
                f.h == h,
                f.side == side,
                f.corner == corner,
                w * h <= i32::MAX,
                0 <= y < h,
                0 <= x <= w,
                f.good(d@),
                f.swept_up(d@, first, x - 1, y as int),
            decreases x,
        {
            x -= 1;
            proof {
                lemma_room(f, x as int, y as int);
                let a = cell(d@, f.w, x as int, y as int);
                let b = cell(d@, f.w, x + 1, y as int);
                let c = cell(d@, f.w, x as int, y + 1);
                let e = cell(d@, f.w, x + 1, y + 1);
                let k = cell(d@, f.w, x - 1, y + 1);
                assert(f.on(x as int, y as int));
                assert(x < w - 1 ==> f.on(x - (-1), y - 0));
                assert(y < h - 1 ==> f.on(x - 0, y - (-1)));
                assert(x < w - 1 && y < h - 1 ==> f.on(x - (-1), y - (-1)));
                assert(x > 0 && y < h - 1 ==> f.on(x - 1, y - (-1)));
                lemma_offers(f, d@, x as int, y as int);
            }
            let i: usize = (y * w + x) as usize;
            let mut v: u32 = d[i];
            if x < w - 1 {
                v = over(d, w, x + 1, y, side, v);
            }
            if y < h - 1 {
                v = over(d, w, x, y + 1, side, v);
                if x < w - 1 {
                    v = over(d, w, x + 1, y + 1, corner, v);
                }
                if x > 0 {
                    v = over(d, w, x - 1, y + 1, corner, v);
                }
            }
            proof {
                lemma_up(f, d@, first, x as int, y as int, v);
            }
            d.set(i, v);
        }
    }
}

/// How far every cell of a grid is from the nearest obstacle, but `cap` at most. A step
/// over a side costs `side` and one over a corner `corner`.
pub fn distances(
    obstacles: &Vec<bool>,
    w: i32,
    h: i32,
    side: u32,
    corner: u32,
    cap: u32,
) -> (r: Vec<u32>)
    requires
        0 <= w,
        0 <= h,
        w * h <= i32::MAX,
        obstacles@.len() == w * h,
        steps_ok(side as int, corner as int),
        cap + corner <= u32::MAX,
    ensures
        r@.len() == obstacles@.len(),
        forall|x: int, y: int|
            #![trigger r@[y * w + x]]
            on_axis(x, w as int) && on_axis(y, h as int) ==> is_distance(
                obstacles@,
                w as int,
                h as int,
                side as int,
                corner as int,
                cap as int,
                x,
                y,
                r@[y * w + x] as int,
            ),
{
    let ghost f = Frame {
        obstacles: obstacles@,
        w: w as int,
        h: h as int,
        side: side as int,
        corner: corner as int,
        cap: cap as int,
    };
    let mut d: Vec<u32> = Vec::new();
    let mut i: usize = 0;
    while i < obstacles.len()
        invariant
            i <= obstacles@.len(),
            d@.len() == i,
            forall|k: int|
                0 <= k < i ==> #[trigger] d@[k] == if obstacles@[k] {
                    0
                } else {
                    cap
                },
        decreases obstacles.len() - i,
    {
        d.push(
            if obstacles[i] {
                0
            } else {
                cap
            },
        );
        i += 1;
    }
    proof {
        assert forall|x: int, y: int| f.on(x, y) implies {
            let r = #[trigger] cell(d@, f.w, x, y);
            &&& 0 <= r <= f.cap
            &&& f.backed(x, y, r)
            &&& f.obstacles[y * f.w + x] ==> r == 0
        } by {
            lemma_cell_bound(x, y, f.w, f.h);
            if f.obstacles[y * f.w + x] {
                assert(octile(0, 0, f.side, f.corner) == 0);
                assert(hits(f.obstacles, f.w, f.h, f.side, f.corner, x, y, 0, x, y));
            }
        }
    }
    sweep_down(&mut d, w, h, side, corner, Ghost(f));
    let ghost first = d@;
    sweep_up(&mut d, w, h, side, corner, Ghost(f));
    proof {
        assert forall|x: int, y: int|
            #![trigger d@[y * w + x]]
            on_axis(x, w as int) && on_axis(y, h as int) implies is_distance(
            obstacles@,
            w as int,
            h as int,
            side as int,
            corner as int,
            cap as int,
            x,
            y,
            d@[y * w + x] as int,
        ) by {
            let r = cell(d@, f.w, x, y);
            assert(f.on(x, y));
            assert forall|u: int, v: int|
                #![trigger obstacles@[v * w + u]]
                on_axis(u, w as int) && on_axis(v, h as int) && obstacles@[v * w
                    + u] implies r <= octile(x - u, y - v, side as int, corner as int) by {
                lemma_direct(f, first, d@, u, v, x, y);
            }
            if r != f.cap {
                let (u, v) = choose|u: int, v: int| #[trigger]
                    hits(f.obstacles, f.w, f.h, f.side, f.corner, x, y, r, u, v);
                assert(obstacles@[v * w + u]);
            }
        }
    }
    d
}

/// A distance counts steps: one over a corner for each column and row at once, one over a
/// side for each further column or row, whatever the direction.
pub proof fn law_octile_counts_steps(dx: int, dy: int, side: int, corner: int)
    requires
        0 <= dx,
        0 <= dy,
    ensures
        octile(0, 0, side, corner) == 0,
        octile(dx + 1, dy + 1, side, corner) == octile(dx, dy, side, corner) + corner,
        octile(dx + 1, 0, side, corner) == octile(dx, 0, side, corner) + side,
        octile(dx, dy, side, corner) == octile(dy, dx, side, corner),
        octile(-dx, dy, side, corner) == octile(dx, dy, side, corner),
        octile(dx, -dy, side, corner) == octile(dx, dy, side, corner),
        octile(-dx, -dy, side, corner) == octile(dx, dy, side, corner),
{
    assert((dx + 1) * corner == dx * corner + corner) by (nonlinear_arith);
    assert((dy + 1) * corner == dy * corner + corner) by (nonlinear_arith);
    assert((dx + 1) * side == dx * side + side) by (nonlinear_arith);
    assert(0 * corner == 0 && 0 * side == 0);
}

} // verus!
