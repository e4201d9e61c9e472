//! Beams of a laser: the cells that they pass on their way.
//!
//! Lengths are in millionths of a metre, from the corner of the map.
use vstd::prelude::*;

use crate::belief::field::{FreeMap, LikelihoodField};
use crate::chamfer::abs;
use crate::grid::{lemma_cell_bound, lemma_cell_injective, on_axis};
use crate::local::{Beam, Touch, ValueIteratorLocal};
use crate::state::State;
use crate::transition::{floor_div, UNIT};

verus! {

/// Largest coordinate and longest beam.
pub const REACH: i64 = 0xff_ffff_ffff;

/// A beam: its direction, in parts of `UNIT`, and where it ends.
#[derive(Clone, Copy, Debug, PartialEq, Eq, Structural)]
pub struct Ray {
    pub cos: i64,
    pub sin: i64,
    pub range: i64,
}

/// Where beams start, how far apart points on them are, and how far before the end of a
/// beam the last point may be.
#[derive(Clone, Copy, Debug, PartialEq, Eq, Structural)]
pub struct Track {
    pub x: i64,
    pub y: i64,
    /// The length of two steps.
    pub two_steps: i64,
    pub back: i64,
    /// Width of a cell.
    pub res: i64,
}

impl Ray {
    /// The numbers can be computed with.
    pub open spec fn wf(self) -> bool {
        &&& -UNIT <= self.cos <= UNIT
        &&& -UNIT <= self.sin <= UNIT
        &&& -REACH <= self.range <= REACH
    }
}

/// The cell that the `k`-th point of a beam lies in, on one axis: the start `c` is in
/// millionths of a metre, and two steps along the axis are `two_steps` times `dir`.
pub open spec fn on_ray(c: int, dir: int, k: int, two_steps: int, res: int) -> int {
    (2 * UNIT * c + k * two_steps * dir) / (2 * UNIT * res)
}

impl Track {
    /// The numbers can be computed with.
    pub open spec fn wf(self) -> bool {
        &&& -REACH <= self.x <= REACH
        &&& -REACH <= self.y <= REACH
        &&& 0 < self.two_steps <= REACH
        &&& 0 <= self.back <= REACH
        &&& 0 < self.res <= REACH
    }

    pub open spec fn cell_x(self, ray: Ray, k: int) -> int {
        on_ray(self.x as int, ray.cos as int, k, self.two_steps as int, self.res as int)
    }

    pub open spec fn cell_y(self, ray: Ray, k: int) -> int {
        on_ray(self.y as int, ray.sin as int, k, self.two_steps as int, self.res as int)
    }

    /// The `k`-th point comes before the end.
    pub open spec fn within(self, ray: Ray, k: int) -> bool {
        k * self.two_steps < 2 * (ray.range - self.back)
    }

    /// The `k`-th point comes before the end, and `cover` has its cell.
    pub open spec fn passes(self, cover: spec_fn(int, int) -> bool, ray: Ray, k: int) -> bool {
        self.within(ray, k) && cover(self.cell_x(ray, k), self.cell_y(ray, k))
    }

    /// All of the first `k` points come before the end, and `cover` has all of their cells.
    pub open spec fn walked(self, cover: spec_fn(int, int) -> bool, ray: Ray, k: int) -> bool {
        1 <= k && forall|j: int| 1 <= j <= k ==> #[trigger] self.passes(cover, ray, j)
    }

    /// The beam comes to its `k`-th point, and that lies in the cell `(x, y)` of the map
    /// that `f` starts on.
    pub open spec fn meets(
        self,
        cover: spec_fn(int, int) -> bool,
        f: Track,
        ray: Ray,
        k: int,
        x: int,
        y: int,
    ) -> bool {
        self.walked(cover, ray, k) && f.cell_x(ray, k) == x && f.cell_y(ray, k) == y
    }

    /// The beam comes to the cell `(x, y)` before its `n`-th point.
    pub open spec fn meets_before(
        self,
        cover: spec_fn(int, int) -> bool,
        f: Track,
        ray: Ray,
        n: int,
        x: int,
        y: int,
    ) -> bool {
        exists|k: int| k < n && #[trigger] self.meets(cover, f, ray, k, x, y)
    }

    /// One of the first `n` beams comes to the cell `(x, y)`.
    pub open spec fn crossed(
        self,
        cover: spec_fn(int, int) -> bool,
        f: Track,
        rays: Seq<Ray>,
        n: int,
        x: int,
        y: int,
    ) -> bool {
        exists|r: int, k: int|
            0 <= r < n && #[trigger] self.meets(cover, f, rays[r], k, x, y)
    }

    /// The cell of the `k`-th point of a beam, in cells of `res`.
    fn cell(&self, ray: &Ray, k: i64) -> (r: (i64, i64))
        requires
            self.wf(),
            ray.wf(),
            0 <= k <= 4 * REACH,
            k * self.two_steps <= 4 * REACH,
        ensures
            r.0 == self.cell_x(*ray, k as int),
            r.1 == self.cell_y(*ray, k as int),
    {
        (
            axis_cell(self.x, ray.cos, k, self.two_steps, self.res),
            axis_cell(self.y, ray.sin, k, self.two_steps, self.res),
        )
    }

    /// Whether the `k`-th point comes before the end.
    fn is_within(&self, ray: &Ray, k: i64) -> (r: bool)
        requires
            self.wf(),
            ray.wf(),
            0 <= k <= 4 * REACH,
        ensures
            r == self.within(*ray, k as int),
            r ==> k <= 2 * REACH && k * self.two_steps <= 2 * REACH,
    {
        let d: i128 = k as i128;
        let s: i128 = self.two_steps as i128;
        proof {
            assert(0 <= d * s <= 0x3ff_ffff_fffc * 0xff_ffff_ffff) by (nonlinear_arith)
                requires
                    0 <= d <= 0x3ff_ffff_fffc,
                    0 <= s <= 0xff_ffff_ffff,
            ;
            assert(d <= d * s) by (nonlinear_arith)
                requires
                    0 <= d,
                    1 <= s,
            ;
        }
        d * s < 2 * (self.range_left(ray) as i128)
    }

    fn range_left(&self, ray: &Ray) -> (r: i64)
        requires
            self.wf(),
            ray.wf(),
        ensures
            r == ray.range - self.back,
    {
        ray.range - self.back
    }
}

/// The cell of the `k`-th point of a beam, on one axis.
fn axis_cell(c: i64, dir: i64, k: i64, two_steps: i64, res: i64) -> (r: i64)
    requires
        -REACH <= c <= REACH,
        -UNIT <= dir <= UNIT,
        0 <= k <= 4 * REACH,
        0 < two_steps,
        k * two_steps <= 4 * REACH,
        0 < res <= REACH,
    ensures
        r == on_ray(c as int, dir as int, k as int, two_steps as int, res as int),
{
    let m: i128 = k as i128 * two_steps as i128;
    proof {
        assert(0 <= k * two_steps) by (nonlinear_arith)
            requires
                0 <= k,
                0 < two_steps,
        ;
        let (mi, di) = (m as int, dir as int);
        assert(-(0x3ff_ffff_fffc * 1_000_000_000) <= mi * di <= 0x3ff_ffff_fffc * 1_000_000_000)
            by (nonlinear_arith)
            requires
                0 <= mi <= 0x3ff_ffff_fffc,
                -1_000_000_000 <= di <= 1_000_000_000,
        ;
    }
    let a: i128 = 2 * UNIT as i128 * c as i128 + m * dir as i128;
    let b: i128 = 2 * UNIT as i128 * res as i128;
    let q: i128 = floor_div(a, b);
    proof {
        let (ai, bi) = (a as int, b as int);
        assert(-0x7fff_ffff_ffff <= ai / bi <= 0x7fff_ffff_ffff) by (nonlinear_arith)
            requires
                2_000_000_000 <= bi,
                -2_000_000_000 * 0x4ff_ffff_ffff <= ai <= 2_000_000_000 * 0x4ff_ffff_ffff,
        ;
    }
    q as i64
}

/// The next beam adds the cells that it comes to.
proof fn lemma_next_ray(
    t: Track,
    cover: spec_fn(int, int) -> bool,
    f: Track,
    rays: Seq<Ray>,
    n: int,
    x: int,
    y: int,
)
    requires
        0 <= n < rays.len(),
    ensures
        t.crossed(cover, f, rays, n + 1, x, y) <==> t.crossed(cover, f, rays, n, x, y) || exists|k: int|
            #[trigger] t.meets(cover, f, rays[n], k, x, y),
{
    if exists|k: int| #[trigger] t.meets(cover, f, rays[n], k, x, y) {
        let k = choose|k: int| #[trigger] t.meets(cover, f, rays[n], k, x, y);
        assert(t.meets(cover, f, rays[n], k, x, y) && 0 <= n < n + 1);
    }
    if t.crossed(cover, f, rays, n, x, y) {
        let (r, k) = choose|r: int, k: int|
            0 <= r < n && #[trigger] t.meets(cover, f, rays[r], k, x, y);
        assert(t.meets(cover, f, rays[r], k, x, y) && 0 <= r < n + 1);
    }
}

/// A walk goes on as long as points come before the end and their cells are covered.
proof fn lemma_walk_on(t: Track, cover: spec_fn(int, int) -> bool, ray: Ray, n: int)
    requires
        n == 1 || t.walked(cover, ray, n - 1),
        1 <= n,
        t.passes(cover, ray, n),
    ensures
        t.walked(cover, ray, n),
{
    assert forall|j: int| 1 <= j <= n implies #[trigger] t.passes(cover, ray, j) by {
        if j < n {
            assert(t.walked(cover, ray, n - 1));
        }
    }
}

/// One more point of a beam adds its cell.
proof fn lemma_next_point(
    t: Track,
    cover: spec_fn(int, int) -> bool,
    f: Track,
    ray: Ray,
    n: int,
    x: int,
    y: int,
)
    requires
        t.walked(cover, ray, n),
    ensures
        t.meets_before(cover, f, ray, n + 1, x, y) <==> t.meets_before(cover, f, ray, n, x, y) || (
        f.cell_x(ray, n) == x && f.cell_y(ray, n) == y),
{
    if f.cell_x(ray, n) == x && f.cell_y(ray, n) == y {
        assert(t.meets(cover, f, ray, n, x, y));
    }
    if t.meets_before(cover, f, ray, n, x, y) {
        let k = choose|k: int| k < n && #[trigger] t.meets(cover, f, ray, k, x, y);
        assert(k < n + 1 && t.meets(cover, f, ray, k, x, y));
    }
}

/// A beam that has stopped comes to no more points.
proof fn lemma_stopped(
    t: Track,
    cover: spec_fn(int, int) -> bool,
    f: Track,
    ray: Ray,
    n: int,
    x: int,
    y: int,
)
    requires
        1 <= n,
        !t.passes(cover, ray, n),
    ensures
        t.meets_before(cover, f, ray, n, x, y) <==> exists|k: int| #[trigger]
            t.meets(cover, f, ray, k, x, y),
{
    assert forall|k: int| #[trigger] t.meets(cover, f, ray, k, x, y) implies k < n by {
        if n <= k {
            assert(t.passes(cover, ray, n));
        }
    }
}

/// The states after the cells that beams came to have been opened.
pub open spec fn opened(s: Seq<State>, crossed: spec_fn(int, int) -> bool) -> Seq<State> {
    Seq::new(
        s.len(),
        |i: int|
            if crossed(s[i].ix as int, s[i].iy as int) {
                Touch::Open.on(s[i])
            } else {
                s[i]
            },
    )
}

impl ValueIteratorLocal {
    /// Half a cell after the other along every beam, up to a cell before its end.
    pub open spec fn track(self, x: i64, y: i64) -> Track {
        Track { x, y, two_steps: self.res, back: self.res, res: self.res }
    }

    /// Opens the cells of the window that beams from `(x, y)` passed, whatever the map
    /// says. A beam that has left the window does not come back.
    pub fn clear_map_from_scan(&mut self, rays: &Vec<Ray>, x: i64, y: i64)
        requires
            old(self).wf(),
            -REACH <= x <= REACH,
            -REACH <= y <= REACH,
            forall|r: int| 0 <= r < rays@.len() ==> (#[trigger] rays@[r]).wf(),
        ensures
            final(self).wf(),
            final(self).same_window(*old(self)),
            final(self).base.states@ == opened(
                old(self).base.states@,
                |a: int, b: int|
                    old(self).track(x, y).crossed(
                        |ix: int, iy: int| old(self).covers(ix, iy),
                        old(self).track(x, y),
                        rays@,
                        rays@.len() as int,
                        a,
                        b,
                    ),
            ),
    {
        let t: Track = Track { x, y, two_steps: self.res, back: self.res, res: self.res };
        let ghost l0 = *self;
        let ghost s0 = self.base.states@;
        let ghost cover = |ix: int, iy: int| l0.covers(ix, iy);
        let mut r: usize = 0;
        assert(s0 =~= opened(s0, |a: int, b: int| t.crossed(cover, t, rays@, 0, a, b)));
        while r < rays.len()
            invariant
                r <= rays@.len(),
                forall|q: int| 0 <= q < rays@.len() ==> (#[trigger] rays@[q]).wf(),
                self.wf(),
                self.same_window(l0),
                t == l0.track(x, y),
                t.wf(),
                s0 == l0.base.states@,
                cover == (|ix: int, iy: int| l0.covers(ix, iy)),
                self.base.states@ == opened(
                    s0,
                    |a: int, b: int| t.crossed(cover, t, rays@, r as int, a, b),
                ),
            decreases rays.len() - r,
        {
            let ray: Ray = rays[r];
            let ghost s1 = self.base.states@;
            let mut k: i64 = 1;
            let mut goes: bool = true;
            assert(s1 =~= opened(
                s1,
                |a: int, b: int| t.meets_before(cover, t, ray, 1, a, b),
            )) by {
                assert forall|a: int, b: int| !#[trigger] t.meets_before(cover, t, ray, 1, a, b) by {}
            }
            while goes
                invariant
                    ray.wf(),
                    self.wf(),
                    self.same_window(l0),
                    t == l0.track(x, y),
                    t.wf(),
                    cover == (|ix: int, iy: int| l0.covers(ix, iy)),
                    1 <= k <= 2 * REACH + 1,
                    k == 1 || t.walked(cover, ray, k - 1),
                    !goes ==> !t.passes(cover, ray, k as int),
                    self.base.states@ == opened(
                        s1,
                        |a: int, b: int| t.meets_before(cover, t, ray, k as int, a, b),
                    ),
                decreases 2 * REACH + 2 - k + (if goes { 1int } else { 0 }),
            {
                if !t.is_within(&ray, k) {
                    goes = false;
                } else {
                    let (cx, cy) = t.cell(&ray, k);
                    let ghost s2 = self.base.states@;
                    assert(self.covers(cx as int, cy as int) == cover(cx as int, cy as int));
                    if 0 <= cx && cx <= i32::MAX as i64 && 0 <= cy && cy <= i32::MAX as i64
                        && self.open_cell(cx as i32, cy as i32) {
                        proof {
                            lemma_walk_on(t, cover, ray, k as int);
                            assert forall|i: int| 0 <= i < s1.len() implies
                                #[trigger] self.base.states@[i] == opened(
                                s1,
                                |a: int, b: int| t.meets_before(cover, t, ray, k + 1, a, b),
                            )[i] by {
                                lemma_next_point(
                                    t,
                                    cover,
                                    t,
                                    ray,
                                    k as int,
                                    s1[i].ix as int,
                                    s1[i].iy as int,
                                );
                                assert(s2[i] == opened(
                                    s1,
                                    |a: int, b: int| t.meets_before(cover, t, ray, k as int, a, b),
                                )[i]);
                            }
                            assert(self.base.states@ =~= opened(
                                s1,
                                |a: int, b: int| t.meets_before(cover, t, ray, k + 1, a, b),
                            ));
                        }
                        k += 1;
                    } else {
                        goes = false;
                    }
                }
            }
            proof {
                assert forall|i: int| 0 <= i < s0.len() implies #[trigger] self.base.states@[i]
                    == opened(
                    s0,
                    |a: int, b: int| t.crossed(cover, t, rays@, r + 1, a, b),
                )[i] by {
                    let (a, b) = (s0[i].ix as int, s0[i].iy as int);
                    lemma_stopped(t, cover, t, ray, k as int, a, b);
                    lemma_next_ray(t, cover, t, rays@, r as int, a, b);
                    assert(s1[i] == opened(
                        s0,
                        |a: int, b: int| t.crossed(cover, t, rays@, r as int, a, b),
                    )[i]);
                }
                assert(self.base.states@ =~= opened(
                    s0,
                    |a: int, b: int| t.crossed(cover, t, rays@, r + 1, a, b),
                ));
            }
            r += 1;
        }
        proof {
            assert(cover == (|ix: int, iy: int| l0.covers(ix, iy)));
        }
    }
}

/// Position of the cell `(x, y)` on a map that is `nx` cells wide.
pub open spec fn cell_of(nx: int, x: int, y: int) -> int {
    y * nx + x
}

/// `b` is the map `a` with the cells that `hit` tells opened.
pub open spec fn freed(
    a: Seq<bool>,
    b: Seq<bool>,
    nx: int,
    ny: int,
    hit: spec_fn(int, int) -> bool,
) -> bool {
    &&& a.len() == b.len()
    &&& forall|x: int, y: int|
        on_axis(x, nx) && on_axis(y, ny) ==> #[trigger] b[cell_of(nx, x, y)] == (a[cell_of(
            nx,
            x,
            y,
        )] || hit(x, y))
}

/// Opening one more cell.
proof fn lemma_freed_step(
    a: Seq<bool>,
    b: Seq<bool>,
    nx: int,
    ny: int,
    hit: spec_fn(int, int) -> bool,
    next: spec_fn(int, int) -> bool,
    cx: int,
    cy: int,
)
    requires
        freed(a, b, nx, ny, hit),
        a.len() == nx * ny,
        forall|x: int, y: int| #[trigger] next(x, y) == (hit(x, y) || x == cx && y == cy),
    ensures
        on_axis(cx, nx) && on_axis(cy, ny) ==> freed(
            a,
            b.update(cell_of(nx, cx, cy), true),
            nx,
            ny,
            next,
        ),
        !(on_axis(cx, nx) && on_axis(cy, ny)) ==> freed(a, b, nx, ny, next),
{
    if on_axis(cx, nx) && on_axis(cy, ny) {
        let c = b.update(cell_of(nx, cx, cy), true);
        lemma_cell_bound(cx, cy, nx, ny);
        assert forall|x: int, y: int| on_axis(x, nx) && on_axis(y, ny) implies #[trigger] c[cell_of(
            nx,
            x,
            y,
        )] == (a[cell_of(nx, x, y)] || next(x, y)) by {
            lemma_cell_bound(x, y, nx, ny);
            assert(b[cell_of(nx, x, y)] == (a[cell_of(nx, x, y)] || hit(x, y)));
            if cell_of(nx, x, y) == cell_of(nx, cx, cy) {
                lemma_cell_injective(x, y, cx, cy, nx);
            }
        }
    } else {
        assert forall|x: int, y: int| on_axis(x, nx) && on_axis(y, ny) implies #[trigger] b[cell_of(
            nx,
            x,
            y,
        )] == (a[cell_of(nx, x, y)] || next(x, y)) by {
            assert(next(x, y) == (hit(x, y) || x == cx && y == cy));
        }
    }
}

/// The same cells are opened where the same ones are hit.
proof fn lemma_freed_same(
    a: Seq<bool>,
    b: Seq<bool>,
    nx: int,
    ny: int,
    hit: spec_fn(int, int) -> bool,
    next: spec_fn(int, int) -> bool,
)
    requires
        freed(a, b, nx, ny, hit),
        forall|x: int, y: int| #[trigger] next(x, y) == hit(x, y),
    ensures
        freed(a, b, nx, ny, next),
{
    assert forall|x: int, y: int| on_axis(x, nx) && on_axis(y, ny) implies #[trigger] b[cell_of(
        nx,
        x,
        y,
    )] == (a[cell_of(nx, x, y)] || next(x, y)) by {
        assert(next(x, y) == hit(x, y));
    }
}

/// The cells that the first `r` beams came to, and the next one before its `n`-th point.
pub open spec fn met(
    t: Track,
    cover: spec_fn(int, int) -> bool,
    f: Track,
    rays: Seq<Ray>,
    r: int,
    n: int,
) -> spec_fn(int, int) -> bool {
    |x: int, y: int|
        t.crossed(cover, f, rays, r, x, y) || t.meets_before(cover, f, rays[r], n, x, y)
}

/// The cells that the first `r` beams came to.
pub open spec fn all_met(
    t: Track,
    cover: spec_fn(int, int) -> bool,
    f: Track,
    rays: Seq<Ray>,
    r: int,
) -> spec_fn(int, int) -> bool {
    |x: int, y: int| t.crossed(cover, f, rays, r, x, y)
}

proof fn lemma_met_step(
    t: Track,
    cover: spec_fn(int, int) -> bool,
    f: Track,
    rays: Seq<Ray>,
    r: int,
    n: int,
)
    requires
        t.walked(cover, rays[r], n),
    ensures
        forall|x: int, y: int| #[trigger]
            met(t, cover, f, rays, r, n + 1)(x, y) == (met(t, cover, f, rays, r, n)(x, y) || x
                == f.cell_x(rays[r], n) && y == f.cell_y(rays[r], n)),
{
    assert forall|x: int, y: int| #[trigger] met(t, cover, f, rays, r, n + 1)(x, y) == (met(
        t,
        cover,
        f,
        rays,
        r,
        n,
    )(x, y) || x == f.cell_x(rays[r], n) && y == f.cell_y(rays[r], n)) by {
        lemma_next_point(t, cover, f, rays[r], n, x, y);
    }
}

proof fn lemma_met_start(
    t: Track,
    cover: spec_fn(int, int) -> bool,
    f: Track,
    rays: Seq<Ray>,
    r: int,
)
    ensures
        forall|x: int, y: int| #[trigger]
            met(t, cover, f, rays, r, 1)(x, y) == all_met(t, cover, f, rays, r)(x, y),
{
    assert forall|x: int, y: int| !#[trigger] t.meets_before(cover, f, rays[r], 1, x, y) by {}
}

proof fn lemma_met_end(
    t: Track,
    cover: spec_fn(int, int) -> bool,
    f: Track,
    rays: Seq<Ray>,
    r: int,
    n: int,
)
    requires
        0 <= r < rays.len(),
        1 <= n,
        !t.passes(cover, rays[r], n),
    ensures
        forall|x: int, y: int| #[trigger]
            all_met(t, cover, f, rays, r + 1)(x, y) == met(t, cover, f, rays, r, n)(x, y),
{
    assert forall|x: int, y: int| #[trigger] all_met(t, cover, f, rays, r + 1)(x, y) == met(
        t,
        cover,
        f,
        rays,
        r,
        n,
    )(x, y) by {
        lemma_stopped(t, cover, f, rays[r], n, x, y);
        lemma_next_ray(t, cover, f, rays, r, x, y);
    }
}

/// Cells of a map.
pub open spec fn on_map(nx: i32, ny: i32) -> spec_fn(int, int) -> bool {
    |x: int, y: int| on_axis(x, nx as int) && on_axis(y, ny as int)
}

/// Opens the cells of a belief's map that beams passed, and the points of the finer map on
/// which beams are explained. `t` starts on the one map and `f` on the other. A beam that
/// has left the belief's map does not come back.
pub fn clear_free_from_scan(
    map: &mut FreeMap,
    field: &mut LikelihoodField,
    rays: &Vec<Ray>,
    t: &Track,
    f: &Track,
)
    requires
        old(map).wf(),
        old(field).wf(),
        t.wf(),
        f.wf(),
        f.two_steps == t.two_steps,
        forall|r: int| 0 <= r < rays@.len() ==> (#[trigger] rays@[r]).wf(),
    ensures
        final(map).wf(),
        final(field).wf(),
        final(map).nx == old(map).nx,
        final(map).ny == old(map).ny,
        final(field).w == old(field).w,
        final(field).h == old(field).h,
        final(field).far == old(field).far,
        final(field).lf == old(field).lf,
        final(field).unknown == old(field).unknown,
        freed(
            old(map).free@,
            final(map).free@,
            old(map).nx as int,
            old(map).ny as int,
            all_met(*t, on_map(old(map).nx, old(map).ny), *t, rays@, rays@.len() as int),
        ),
        freed(
            old(field).free@,
            final(field).free@,
            old(field).w as int,
            old(field).h as int,
            all_met(*t, on_map(old(map).nx, old(map).ny), *f, rays@, rays@.len() as int),
        ),
{
    let ghost m0 = *map;
    let ghost f0 = *field;
    let ghost (nx, ny) = (m0.nx as int, m0.ny as int);
    let ghost (w, h) = (f0.w as int, f0.h as int);
    let ghost cover = on_map(m0.nx, m0.ny);
    let mut r: usize = 0;
    while r < rays.len()
        invariant
            r <= rays@.len(),
            forall|q: int| 0 <= q < rays@.len() ==> (#[trigger] rays@[q]).wf(),
            map.wf(),
            field.wf(),
            m0.wf(),
            f0.wf(),
            t.wf(),
            f.wf(),
            f.two_steps == t.two_steps,
            map.nx == m0.nx,
            map.ny == m0.ny,
            field.w == f0.w,
            field.h == f0.h,
            field.far == f0.far,
            field.lf == f0.lf,
            field.unknown == f0.unknown,
            nx == m0.nx,
            ny == m0.ny,
            w == f0.w,
            h == f0.h,
            cover == on_map(m0.nx, m0.ny),
            freed(m0.free@, map.free@, nx, ny, all_met(*t, cover, *t, rays@, r as int)),
            freed(f0.free@, field.free@, w, h, all_met(*t, cover, *f, rays@, r as int)),
        decreases rays.len() - r,
    {
        let ray: Ray = rays[r];
        let mut k: i64 = 1;
        let mut goes: bool = true;
        proof {
            lemma_met_start(*t, cover, *t, rays@, r as int);
            lemma_met_start(*t, cover, *f, rays@, r as int);
            lemma_freed_same(
                m0.free@,
                map.free@,
                nx,
                ny,
                all_met(*t, cover, *t, rays@, r as int),
                met(*t, cover, *t, rays@, r as int, 1),
            );
            lemma_freed_same(
                f0.free@,
                field.free@,
                w,
                h,
                all_met(*t, cover, *f, rays@, r as int),
                met(*t, cover, *f, rays@, r as int, 1),
            );
        }
        while goes
            invariant
                r < rays@.len(),
                ray == rays@[r as int],
                ray.wf(),
                map.wf(),
                field.wf(),
                m0.wf(),
                f0.wf(),
                t.wf(),
                f.wf(),
                f.two_steps == t.two_steps,
                map.nx == m0.nx,
                map.ny == m0.ny,
                field.w == f0.w,
                field.h == f0.h,
                field.far == f0.far,
                field.lf == f0.lf,
                field.unknown == f0.unknown,
                nx == m0.nx,
                ny == m0.ny,
                w == f0.w,
                h == f0.h,
                cover == on_map(m0.nx, m0.ny),
                1 <= k <= 2 * REACH + 1,
                k == 1 || t.walked(cover, ray, k - 1),
                !goes ==> !t.passes(cover, ray, k as int),
                freed(m0.free@, map.free@, nx, ny, met(*t, cover, *t, rays@, r as int, k as int)),
                freed(f0.free@, field.free@, w, h, met(*t, cover, *f, rays@, r as int, k as int)),
            decreases
                    2 * REACH + 2 - k + (if goes {
                        1int
                    } else {
                        0
                    }),
        {
            if !t.is_within(&ray, k) {
                goes = false;
            } else {
                let (cx, cy) = t.cell(&ray, k);
                if cx < 0 || cx > i32::MAX as i64 || cy < 0 || cy > i32::MAX as i64 {
                    goes = false;
                } else {
                    let ghost m1 = map.free@;
                    let ghost f1 = field.free@;
                    if map.open_cell(cx as i32, cy as i32) {
                        let (fx, fy) = f.cell(&ray, k);
                        if 0 <= fx && fx <= i32::MAX as i64 && 0 <= fy && fy <= i32::MAX as i64 {
                            field.mark_free(fx as i32, fy as i32);
                        }
                        proof {
                            lemma_walk_on(*t, cover, ray, k as int);
                            lemma_met_step(*t, cover, *t, rays@, r as int, k as int);
                            lemma_met_step(*t, cover, *f, rays@, r as int, k as int);
                            lemma_freed_step(
                                m0.free@,
                                m1,
                                nx,
                                ny,
                                met(*t, cover, *t, rays@, r as int, k as int),
                                met(*t, cover, *t, rays@, r as int, k + 1),
                                cx as int,
                                cy as int,
                            );
                            lemma_freed_step(
                                f0.free@,
                                f1,
                                w,
                                h,
                                met(*t, cover, *f, rays@, r as int, k as int),
                                met(*t, cover, *f, rays@, r as int, k + 1),
                                fx as int,
                                fy as int,
                            );
                        }
                        k += 1;
                    } else {
                        goes = false;
                    }
                }
            }
        }
        proof {
            lemma_met_end(*t, cover, *t, rays@, r as int, k as int);
            lemma_met_end(*t, cover, *f, rays@, r as int, k as int);
            lemma_freed_same(
                m0.free@,
                map.free@,
                nx,
                ny,
                met(*t, cover, *t, rays@, r as int, k as int),
                all_met(*t, cover, *t, rays@, r + 1),
            );
            lemma_freed_same(
                f0.free@,
                field.free@,
                w,
                h,
                met(*t, cover, *f, rays@, r as int, k as int),
                all_met(*t, cover, *f, rays@, r + 1),
            );
        }
        r += 1;
    }
}

/// Free cells of a map.
pub open spec fn clear_cells(data: Seq<i8>, w: i32, h: i32) -> spec_fn(int, int) -> bool {
    |x: int, y: int|
        on_axis(x, w as int) && on_axis(y, h as int) && data[cell_of(w as int, x, y)] == 0
}

/// The `k`-th point is the first of the beam that is not in a free cell of the map, and it
/// is in an occupied one.
pub open spec fn hits(t: Track, data: Seq<i8>, w: i32, h: i32, ray: Ray, k: int) -> bool {
    &&& k == 1 || t.walked(clear_cells(data, w, h), ray, k - 1)
    &&& 1 <= k
    &&& t.within(ray, k)
    &&& on_map(w, h)(t.cell_x(ray, k), t.cell_y(ray, k))
    &&& data[cell_of(w as int, t.cell_x(ray, k), t.cell_y(ray, k))] != 0
}

/// What a beam sees: the point where it hits, if it does before it leaves the map.
pub open spec fn sees(
    t: Track,
    data: Seq<i8>,
    w: i32,
    h: i32,
    ray: Ray,
    seen: Option<i64>,
) -> bool {
    match seen {
        Some(k) => hits(t, data, w, h, ray, k as int),
        None => forall|k: int| !#[trigger] hits(t, data, w, h, ray, k),
    }
}

/// A beam hits at most once.
pub proof fn law_beam_hits_once(
    t: Track,
    data: Seq<i8>,
    w: i32,
    h: i32,
    ray: Ray,
    j: int,
    k: int,
)
    requires
        hits(t, data, w, h, ray, j),
        hits(t, data, w, h, ray, k),
    ensures
        j == k,
{
    if j < k {
        assert(t.passes(clear_cells(data, w, h), ray, j));
    }
    if k < j {
        assert(t.passes(clear_cells(data, w, h), ray, k));
    }
}

/// What an ideal laser sees of a map.
pub fn cast_scan(data: &Vec<i8>, w: i32, h: i32, rays: &Vec<Ray>, t: &Track) -> (r: Vec<
    Option<i64>,
>)
    requires
        0 <= w,
        0 <= h,
        w * h <= i32::MAX,
        data@.len() == w * h,
        t.wf(),
        forall|i: int| 0 <= i < rays@.len() ==> (#[trigger] rays@[i]).wf(),
    ensures
        r@.len() == rays@.len(),
        forall|i: int|
            0 <= i < rays@.len() ==> sees(*t, data@, w, h, rays@[i], #[trigger] r@[i]),
{
    let ghost cover = clear_cells(data@, w, h);
    let mut out: Vec<Option<i64>> = Vec::new();
    let mut r: usize = 0;
    while r < rays.len()
        invariant
            r <= rays@.len(),
            0 <= w,
            0 <= h,
            w * h <= i32::MAX,
            data@.len() == w * h,
            t.wf(),
            cover == clear_cells(data@, w, h),
            forall|i: int| 0 <= i < rays@.len() ==> (#[trigger] rays@[i]).wf(),
            out@.len() == r,
            forall|i: int| 0 <= i < r ==> sees(*t, data@, w, h, rays@[i], #[trigger] out@[i]),
        decreases rays.len() - r,
    {
        let ray: Ray = rays[r];
        let mut k: i64 = 1;
        let mut goes: bool = true;
        let mut seen: Option<i64> = None;
        while goes
            invariant
                0 <= w,
                0 <= h,
                w * h <= i32::MAX,
                data@.len() == w * h,
                t.wf(),
                ray.wf(),
                cover == clear_cells(data@, w, h),
                1 <= k <= 2 * REACH + 1,
                k == 1 || t.walked(cover, ray, k - 1),
                goes ==> seen is None,
                !goes ==> !t.passes(cover, ray, k as int),
                !goes ==> (seen is None ==> !hits(*t, data@, w, h, ray, k as int)),
                seen matches Some(j) ==> hits(*t, data@, w, h, ray, j as int),
            decreases
                    2 * REACH + 2 - k + (if goes {
                        1int
                    } else {
                        0
                    }),
        {
            if !t.is_within(&ray, k) {
                goes = false;
            } else {
                let (cx, cy) = t.cell(&ray, k);
                if cx < 0 || cx >= w as i64 || cy < 0 || cy >= h as i64 {
                    goes = false;
                } else {
                    proof {
                        lemma_cell_bound(cx as int, cy as int, w as int, h as int);
                        assert(0 <= cy * w) by (nonlinear_arith)
                            requires
                                0 <= cy,
                                0 <= w,
                        ;
                    }
                    if data[(cy * w as i64 + cx) as usize] != 0 {
                        seen = Some(k);
                        goes = false;
                    } else {
                        proof {
                            lemma_walk_on(*t, cover, ray, k as int);
                        }
                        k += 1;
                    }
                }
            }
        }
        proof {
            if seen is None {
                assert forall|j: int| !#[trigger] hits(*t, data@, w, h, ray, j) by {
                    if hits(*t, data@, w, h, ray, j) {
                        if j < k {
                            assert(t.passes(cover, ray, j));
                        } else if j > k {
                            assert(t.passes(cover, ray, k as int));
                        }
                    }
                }
            }
        }
        out.push(seen);
        r += 1;
    }
    out
}

/// A scan that the map explains opens nothing: up to where an ideal beam hits, all cells
/// that a beam of that length passes are free already.
pub proof fn law_true_scan_opens_nothing(
    ideal: Track,
    t: Track,
    data: Seq<i8>,
    w: i32,
    h: i32,
    full: Ray,
    k: int,
    cover: spec_fn(int, int) -> bool,
    ray: Ray,
    j: int,
    x: int,
    y: int,
)
    requires
        ideal.wf(),
        t.wf(),
        t.x == ideal.x,
        t.y == ideal.y,
        t.two_steps == ideal.two_steps,
        t.res == ideal.res,
        hits(ideal, data, w, h, full, k),
        ray.cos == full.cos,
        ray.sin == full.sin,
        2 * ray.range <= k * t.two_steps,
        t.meets(cover, t, ray, j, x, y),
    ensures
        clear_cells(data, w, h)(x, y),
{
    assert(t.passes(cover, ray, j));
    assert(j < k) by (nonlinear_arith)
        requires
            j * t.two_steps < 2 * (ray.range - t.back),
            2 * ray.range <= k * t.two_steps,
            0 <= t.back,
            0 < t.two_steps,
    ;
    assert(ideal.passes(clear_cells(data, w, h), full, j));
}

/// Cells beyond this are off every map.
pub const OFF_ALL_MAPS: i64 = 0x3fff_ffff;

/// A cell, or one off every map in the same direction.
pub open spec fn near(v: int) -> int {
    if v < -OFF_ALL_MAPS {
        -OFF_ALL_MAPS
    } else if v > OFF_ALL_MAPS {
        OFF_ALL_MAPS as int
    } else {
        v
    }
}

fn near_cell(v: i64) -> (r: i32)
    ensures
        r == near(v as int),
{
    if v < -OFF_ALL_MAPS {
        -OFF_ALL_MAPS as i32
    } else if v > OFF_ALL_MAPS {
        OFF_ALL_MAPS as i32
    } else {
        v as i32
    }
}

/// The cell that is `k` tenths of a beam away from its start `c`, on one axis.
pub open spec fn tenth(c: int, dir: int, range: int, k: int, res: int) -> int {
    (10 * UNIT * c + k * range * dir) / (10 * UNIT * res)
}

fn tenth_cell(c: i64, dir: i64, range: i64, k: i64, res: i64) -> (r: i32)
    requires
        -REACH <= c <= REACH,
        -UNIT <= dir <= UNIT,
        -REACH <= range <= REACH,
        0 <= k <= 10,
        0 < res <= REACH,
    ensures
        r == near(tenth(c as int, dir as int, range as int, k as int, res as int)),
{
    assert(-0x9ff_ffff_fff6 <= k * range <= 0x9ff_ffff_fff6) by (nonlinear_arith)
        requires
            0 <= k <= 10,
            -0xff_ffff_ffff <= range <= 0xff_ffff_ffff,
    ;
    let m: i128 = k as i128 * range as i128;
    let unit: i128 = 10_000_000_000;
    proof {
        let (mi, di) = (m as int, dir as int);
        assert(-(0x9ff_ffff_fff6 * 1_000_000_000) <= mi * di <= 0x9ff_ffff_fff6 * 1_000_000_000)
            by (nonlinear_arith)
            requires
                -0x9ff_ffff_fff6 <= mi <= 0x9ff_ffff_fff6,
                -1_000_000_000 <= di <= 1_000_000_000,
        ;
    }
    let a: i128 = unit * c as i128 + m * dir as i128;
    let b: i128 = unit * res as i128;
    let q: i128 = floor_div(a, b);
    proof {
        let (ai, bi) = (a as int, b as int);
        assert(-0x7fff_ffff_ffff <= ai / bi <= 0x7fff_ffff_ffff) by (nonlinear_arith)
            requires
                10_000_000_000 <= bi,
                -10_000_000_000 * 0x4ff_ffff_ffff <= ai <= 10_000_000_000 * 0x4ff_ffff_ffff,
        ;
    }
    near_cell(q as i64)
}

/// What a beam says of the cells around `(x, y)`: it passed those at every tenth of its
/// way, and ended in the last.
pub fn sample_beam(ray: &Ray, x: i64, y: i64, res: i64) -> (r: Beam)
    requires
        ray.wf(),
        -REACH <= x <= REACH,
        -REACH <= y <= REACH,
        0 < res <= REACH,
    ensures
        r.passed@ == Seq::new(
            9,
            |i: int|
                (
                    near(tenth(x as int, ray.cos as int, ray.range as int, i + 1, res as int)) as i32,
                    near(tenth(y as int, ray.sin as int, ray.range as int, i + 1, res as int)) as i32,
                ),
        ),
        r.hit.0 == near(tenth(x as int, ray.cos as int, ray.range as int, 10, res as int)),
        r.hit.1 == near(tenth(y as int, ray.sin as int, ray.range as int, 10, res as int)),
{
    let mut passed: Vec<(i32, i32)> = Vec::new();
    let mut k: i64 = 1;
    while k < 10
        invariant
            ray.wf(),
            -REACH <= x <= REACH,
            -REACH <= y <= REACH,
            0 < res <= REACH,
            1 <= k <= 10,
            passed@ == Seq::new(
                (k - 1) as nat,
                |i: int|
                    (
                        near(
                            tenth(x as int, ray.cos as int, ray.range as int, i + 1, res as int),
                        ) as i32,
                        near(
                            tenth(y as int, ray.sin as int, ray.range as int, i + 1, res as int),
                        ) as i32,
                    ),
            ),
        decreases 10 - k,
    {
        passed.push(
            (
                tenth_cell(x, ray.cos, ray.range, k, res),
                tenth_cell(y, ray.sin, ray.range, k, res),
            ),
        );
        k += 1;
    }
    Beam {
        passed,
        hit: (
            tenth_cell(x, ray.cos, ray.range, 10, res),
            tenth_cell(y, ray.sin, ray.range, 10, res),
        ),
    }
}

/// After `k` half steps a ray is in the cell that its place lies in: the place is
/// `k * two_steps / 2` along the direction from the start, and the cell holds it between its
/// borders. A ray that starts in a cell is in that cell after no step, and one that points
/// along an axis never goes back on it.
pub proof fn law_ray_is_in_its_cell(c: int, dir: int, k: int, two_steps: int, res: int)
    requires
        0 < res,
        0 < two_steps,
        0 <= k,
    ensures
        on_ray(c, dir, k, two_steps, res) * (2 * UNIT * res) <= 2 * UNIT * c + k * two_steps * dir,
        2 * UNIT * c + k * two_steps * dir < (on_ray(c, dir, k, two_steps, res) + 1) * (2 * UNIT
            * res),
        on_ray(c, dir, 0, two_steps, res) * res <= c < (on_ray(c, dir, 0, two_steps, res) + 1)
            * res,
        dir >= 0 ==> on_ray(c, dir, k, two_steps, res) <= on_ray(c, dir, k + 1, two_steps, res),
        dir <= 0 ==> on_ray(c, dir, k, two_steps, res) >= on_ray(c, dir, k + 1, two_steps, res),
        dir == 0 ==> on_ray(c, dir, k, two_steps, res) == on_ray(c, dir, 0, two_steps, res),
{
    let d = 2 * UNIT * res;
    assert(d > 0) by (nonlinear_arith)
        requires
            d == 2 * 1_000_000_000 * res,
            0 < res,
    ;
    let a = 2 * UNIT * c + k * two_steps * dir;
    let b = 2 * UNIT * c + (k + 1) * two_steps * dir;
    let z = 2 * UNIT * c;
    assert(0 * two_steps * dir == 0);
    assert((k + 1) * two_steps * dir == k * two_steps * dir + two_steps * dir) by (nonlinear_arith);
    assert(dir >= 0 ==> two_steps * dir >= 0) by (nonlinear_arith)
        requires
            0 < two_steps,
    ;
    assert(dir <= 0 ==> two_steps * dir <= 0) by (nonlinear_arith)
        requires
            0 < two_steps,
    ;
    assert(dir == 0 ==> k * two_steps * dir == 0) by (nonlinear_arith);
    lemma_quotient(a, d);
    lemma_quotient(b, d);
    lemma_quotient(z, d);
    let q = z / d;
    assert(q * res <= c < (q + 1) * res) by (nonlinear_arith)
        requires
            q * d <= z < (q + 1) * d,
            d == 2 * 1_000_000_000 * res,
            z == 2 * 1_000_000_000 * c,
    ;
    if a <= b {
        vstd::arithmetic::div_mod::lemma_div_is_ordered(a, b, d);
    } else {
        vstd::arithmetic::div_mod::lemma_div_is_ordered(b, a, d);
    }
}

proof fn lemma_quotient(a: int, d: int)
    requires
        0 < d,
    ensures
        (a / d) * d <= a < (a / d + 1) * d,
{
    vstd::arithmetic::div_mod::lemma_fundamental_div_mod(a, d);
    vstd::arithmetic::div_mod::lemma_mod_bound(a, d);
    let q = a / d;
    assert(q * d <= a < (q + 1) * d) by (nonlinear_arith)
        requires
            a == d * q + a % d,
            0 <= a % d,
            a % d < d,
    ;
}

/// The tenths of a beam lie `k` tenths of the range along its direction, each in the cell
/// that holds the place between its borders. After ten of them it is at its end.
pub proof fn law_tenth_is_in_its_cell(c: int, dir: int, range: int, k: int, res: int)
    requires
        0 < res,
    ensures
        tenth(c, dir, range, k, res) * (10 * UNIT * res) <= 10 * UNIT * c + k * range * dir,
        10 * UNIT * c + k * range * dir < (tenth(c, dir, range, k, res) + 1) * (10 * UNIT * res),
        tenth(c, dir, range, 10, res) * (UNIT * res) <= UNIT * c + range * dir,
        UNIT * c + range * dir < (tenth(c, dir, range, 10, res) + 1) * (UNIT * res),
{
    let d = 10 * UNIT * res;
    assert(d > 0) by (nonlinear_arith)
        requires
            d == 10 * 1_000_000_000 * res,
            0 < res,
    ;
    lemma_quotient(10 * UNIT * c + k * range * dir, d);
    let t = 10 * UNIT * c + 10 * range * dir;
    lemma_quotient(t, d);
    let q = t / d;
    let e = UNIT * res;
    let u = UNIT * c + range * dir;
    assert(10 * range * dir == 10 * (range * dir)) by (nonlinear_arith);
    assert(d == 10 * e) by (nonlinear_arith)
        requires
            d == 10 * 1_000_000_000 * res,
            e == 1_000_000_000 * res,
    ;
    assert(t == 10 * u) by (nonlinear_arith)
        requires
            t == 10 * 1_000_000_000 * c + 10 * (range * dir),
            u == 1_000_000_000 * c + range * dir,
    ;
    assert(q * e <= u < (q + 1) * e) by (nonlinear_arith)
        requires
            q * d <= t < (q + 1) * d,
            d == 10 * e,
            t == 10 * u,
    ;
}

/// A cell number keeps its value unless it is off all maps; then it becomes one that is off
/// all maps on the same side.
pub proof fn law_near_keeps_the_side(v: int, n: int)
    ensures
        abs(v) <= OFF_ALL_MAPS ==> near(v) == v,
        abs(near(v)) <= OFF_ALL_MAPS,
        v > OFF_ALL_MAPS ==> near(v) == OFF_ALL_MAPS,
        v < -OFF_ALL_MAPS ==> near(v) == -OFF_ALL_MAPS,
        0 <= n <= OFF_ALL_MAPS ==> on_axis(near(v), n) == on_axis(v, n),
{
}

/// A beam walks only while it is shorter than its range less the margin, through cells that
/// are covered, and a longer beam along the same line walks as far.
pub proof fn law_shorter_beams_pass_less(
    t: Track,
    cover: spec_fn(int, int) -> bool,
    short: Ray,
    long: Ray,
    k: int,
    j: int,
)
    requires
        t.wf(),
        short.cos == long.cos,
        short.sin == long.sin,
        short.range <= long.range,
        t.walked(cover, short, k),
        1 <= j <= k,
    ensures
        k * t.two_steps + 2 * t.back < 2 * short.range,
        t.walked(cover, long, k),
        t.walked(cover, short, j),
        cover(t.cell_x(short, j), t.cell_y(short, j)),
{
    assert(t.passes(cover, short, k));
    assert(t.passes(cover, short, j));
    assert forall|i: int| 1 <= i <= k implies #[trigger] t.passes(cover, long, i) by {
        assert(t.passes(cover, short, i));
    }
}

} // verus!
