//! Sets of cells and of states, with the dilation that grows a frontier by one
//! round of motion.
use vstd::prelude::*;

use crate::grid::{
    index3, lemma_cell_bound, lemma_encode, lemma_index_bound, lemma_index_injective, on_axis,
    on_grid, t_of, x_of, y_of,
};
use crate::solvers::displacement::{turn_between, turn_i32};

verus! {

/// Positions below `n` whose flag is set.
pub open spec fn flagged(bits: Seq<bool>, n: int) -> Set<int> {
    Set::new(|c: int| 0 <= c < n && c < bits.len() && bits[c])
}

/// Positions whose flag is set.
pub open spec fn flag_set(bits: Seq<bool>) -> Set<int> {
    flagged(bits, bits.len() as int)
}

proof fn lemma_flagged_step(bits: Seq<bool>, n: int)
    requires
        0 <= n < bits.len(),
        flagged(bits, n).finite(),
    ensures
        flagged(bits, n + 1).finite(),
        flagged(bits, n + 1).len() == flagged(bits, n).len() + if bits[n] {
            1int
        } else {
            0int
        },
{
    if bits[n] {
        assert(flagged(bits, n + 1) =~= flagged(bits, n).insert(n));
    } else {
        assert(flagged(bits, n + 1) =~= flagged(bits, n));
    }
}

/// How many flags are set.
pub fn count_flags(bits: &Vec<bool>) -> (r: usize)
    ensures
        r == flag_set(bits@).len(),
        flag_set(bits@).finite(),
        r == 0 <==> flag_set(bits@) =~= Set::<int>::empty(),
{
    let mut n: usize = 0;
    let mut k: usize = 0;
    assert(flagged(bits@, 0) =~= Set::<int>::empty());
    while k < bits.len()
        invariant
            k <= bits.len(),
            n <= k,
            flagged(bits@, k as int).finite(),
            n == flagged(bits@, k as int).len(),
        decreases bits.len() - k,
    {
        proof {
            lemma_flagged_step(bits@, k as int);
        }
        if bits[k] {
            n += 1;
        }
        k += 1;
    }
    proof {
        if n == 0 {
            assert(flag_set(bits@) =~= Set::<int>::empty());
        }
    }
    n
}

/// Two positions of an axis no further apart than `d`.
pub open spec fn within(a: int, b: int, d: int) -> bool {
    -d <= a - b <= d
}

/// The cell `(x, y)` has a member of `f` at most `dx` columns and `dy` rows away.
pub open spec fn near_cell(f: Set<int>, w: int, h: int, x: int, y: int, dx: int, dy: int) -> bool {
    exists|x2: int, y2: int|
        #![trigger f.contains(y2 * w + x2)]
        on_axis(x2, w) && on_axis(y2, h) && within(x, x2, dx) && within(y, y2, dy) && f.contains(
            y2 * w + x2,
        )
}

/// The cells of a `w` by `h` map near a member of `f`.
pub open spec fn dilated(f: Set<int>, w: int, h: int, dx: int, dy: int) -> Set<int> {
    Set::new(
        |c: int|
            exists|x: int, y: int|
                #![trigger near_cell(f, w, h, x, y, dx, dy)]
                on_axis(x, w) && on_axis(y, h) && c == y * w + x && near_cell(
                    f,
                    w,
                    h,
                    x,
                    y,
                    dx,
                    dy,
                ),
    )
}

/// A set of cells of a map, cell `(x, y)` at `y * w + x`.
pub struct Bitboard2D {
    pub w: u32,
    pub h: u32,
    pub bits: Vec<bool>,
}

impl Bitboard2D {
    pub open spec fn wf(self) -> bool {
        &&& self.bits@.len() == self.w * self.h
        &&& self.w * self.h <= i32::MAX
    }

    /// The cells of the set.
    pub open spec fn members(self) -> Set<int> {
        flag_set(self.bits@)
    }

    /// The empty set of cells of a `w` by `h` map.
    pub fn new(w: u32, h: u32) -> (r: Bitboard2D)
        requires
            w * h <= i32::MAX,
        ensures
            r.wf(),
            r.w == w,
            r.h == h,
            r.members() =~= Set::<int>::empty(),
            forall|c: int| 0 <= c < r.bits@.len() ==> !#[trigger] r.bits@[c],
    {
        let n: u32 = w * h;
        Bitboard2D { w, h, bits: vec![false; n as usize] }
    }

    fn cell(&self, x: u32, y: u32) -> (r: usize)
        requires
            self.wf(),
            x < self.w,
            y < self.h,
        ensures
            r == y * self.w + x,
            r < self.bits.len(),
    {
        proof {
            lemma_cell_bound(x as int, y as int, self.w as int, self.h as int);
        }
        (y * self.w + x) as usize
    }

    /// Adds the cell `(x, y)`.
    pub fn set(&mut self, x: u32, y: u32)
        requires
            old(self).wf(),
            x < old(self).w,
            y < old(self).h,
        ensures
            final(self).wf(),
            final(self).w == old(self).w,
            final(self).h == old(self).h,
            final(self).members() =~= old(self).members().insert(y * old(self).w + x),
    {
        let c: usize = self.cell(x, y);
        self.bits.set(c, true);
    }

    /// Whether the cell `(x, y)` is in the set.
    pub fn get(&self, x: u32, y: u32) -> (r: bool)
        requires
            self.wf(),
            x < self.w,
            y < self.h,
        ensures
            r == self.members().contains(y * self.w + x),
    {
        let c: usize = self.cell(x, y);
        self.bits[c]
    }

    /// The number of cells in the set.
    pub fn popcount(&self) -> (r: usize)
        ensures
            r == self.members().len(),
            self.members().finite(),
            r == 0 <==> self.members() =~= Set::<int>::empty(),
    {
        count_flags(&self.bits)
    }

    fn any_near(&self, x: u32, y: u32, dx: u32, dy: u32) -> (r: bool)
        requires
            self.wf(),
            x < self.w,
            y < self.h,
        ensures
            r == near_cell(
                self.members(),
                self.w as int,
                self.h as int,
                x as int,
                y as int,
                dx as int,
                dy as int,
            ),
    {
        let x0: u32 = x.saturating_sub(dx);
        let x1: u32 = if self.w - 1 - x < dx {
            self.w - 1
        } else {
            x + dx
        };
        let y0: u32 = y.saturating_sub(dy);
        let y1: u32 = if self.h - 1 - y < dy {
            self.h - 1
        } else {
            y + dy
        };
        let ghost f = self.members();
        let ghost wi = self.w as int;
        let mut yy: u32 = y0;
        while yy <= y1
            invariant
                self.wf(),
                x < self.w,
                y < self.h,
                f == self.members(),
                wi == self.w,
                x0 <= x <= x1 < self.w,
                y0 <= yy <= y1 + 1,
                y1 < self.h,
                forall|a: int| on_axis(a, wi) && within(x as int, a, dx as int) <==> x0 <= a <= x1,
                forall|b: int|
                    on_axis(b, self.h as int) && within(y as int, b, dy as int) <==> y0 <= b <= y1,
                forall|a: int, b: int|
                    x0 <= a <= x1 && y0 <= b < yy ==> !f.contains(#[trigger] (b * wi + a)),
            decreases y1 + 1 - yy,
        {
            let mut xx: u32 = x0;
            while xx <= x1
                invariant
                    self.wf(),
                    f == self.members(),
                    wi == self.w,
                    x0 <= xx <= x1 + 1,
                    x1 < self.w,
                    y0 <= yy <= y1,
                    y1 < self.h,
                    forall|a: int|
                        on_axis(a, wi) && within(x as int, a, dx as int) <==> x0 <= a <= x1,
                    forall|b: int|
                        on_axis(b, self.h as int) && within(y as int, b, dy as int) <==> y0 <= b
                            <= y1,
                    forall|a: int, b: int|
                        x0 <= a <= x1 && y0 <= b < yy ==> !f.contains(#[trigger] (b * wi + a)),
                    forall|a: int| x0 <= a < xx ==> !f.contains(#[trigger] (yy * wi + a)),
                decreases x1 + 1 - xx,
            {
                if self.get(xx, yy) {
                    assert(on_axis(xx as int, wi) && on_axis(yy as int, self.h as int));
                    assert(within(x as int, xx as int, dx as int));
                    assert(within(y as int, yy as int, dy as int));
                    assert(f.contains(yy as int * wi + xx as int));
                    return true;
                }
                xx += 1;
            }
            yy += 1;
        }
        false
    }

    /// The cells at most `dx` columns and `dy` rows away from a cell of the set.
    pub fn dilate(&self, dx: u32, dy: u32) -> (r: Bitboard2D)
        requires
            self.wf(),
        ensures
            r.wf(),
            r.w == self.w,
            r.h == self.h,
            r.members() =~= dilated(self.members(), self.w as int, self.h as int, dx as int, dy as int),
    {
        let mut out: Bitboard2D = Bitboard2D::new(self.w, self.h);
        let ghost f = self.members();
        let ghost wi = self.w as int;
        let ghost hi = self.h as int;
        let mut y: u32 = 0;
        while y < self.h
            invariant
                self.wf(),
                out.wf(),
                out.w == self.w,
                out.h == self.h,
                f == self.members(),
                wi == self.w,
                hi == self.h,
                y <= self.h,
                forall|c: int| #[trigger]
                    out.members().contains(c) <==> exists|a: int, b: int|
                        #![trigger near_cell(f, wi, hi, a, b, dx as int, dy as int)]
                        on_axis(a, wi) && 0 <= b < y && c == b * wi + a && near_cell(
                            f,
                            wi,
                            hi,
                            a,
                            b,
                            dx as int,
                            dy as int,
                        ),
            decreases self.h - y,
        {
            let mut x: u32 = 0;
            while x < self.w
                invariant
                    self.wf(),
                    out.wf(),
                    out.w == self.w,
                    out.h == self.h,
                    f == self.members(),
                    wi == self.w,
                    hi == self.h,
                    y < self.h,
                    x <= self.w,
                    forall|c: int| #[trigger]
                        out.members().contains(c) <==> exists|a: int, b: int|
                            #![trigger near_cell(f, wi, hi, a, b, dx as int, dy as int)]
                            on_axis(a, wi) && (0 <= b < y || b == y && a < x) && c == b * wi + a
                                && near_cell(f, wi, hi, a, b, dx as int, dy as int),
                decreases self.w - x,
            {
                let ghost before = out.members();
                if self.any_near(x, y, dx, dy) {
                    out.set(x, y);
                }
                x += 1;
            }
            y += 1;
        }
        out
    }
}

/// Some heading at most `dt` steps from `t` is in `f` at the cell `(x, y)`.
pub open spec fn near_heading(
    f: Set<int>,
    w: int,
    n: int,
    x: int,
    y: int,
    t: int,
    dt: int,
) -> bool {
    exists|t2: int|
        on_axis(t2, n) && turn_between(t, t2, n) <= dt && f.contains(
            #[trigger] index3(x, y, t2, w, n),
        )
}

/// The state `(x, y, t)` has a member of `f` at most `dx` columns, `dy` rows and
/// `dt` headings away.
pub open spec fn near_state(
    f: Set<int>,
    w: int,
    h: int,
    n: int,
    x: int,
    y: int,
    t: int,
    dx: int,
    dy: int,
    dt: int,
) -> bool {
    exists|x2: int, y2: int|
        on_axis(x2, w) && on_axis(y2, h) && within(x, x2, dx) && within(y, y2, dy)
            && #[trigger] near_heading(f, w, n, x2, y2, t, dt)
}

/// The states of a `w` by `h` map with `n` headings near a member of `f`.
pub open spec fn dilated3(
    f: Set<int>,
    w: int,
    h: int,
    n: int,
    dx: int,
    dy: int,
    dt: int,
) -> Set<int> {
    Set::new(
        |i: int|
            exists|x: int, y: int, t: int|
                #![trigger near_state(f, w, h, n, x, y, t, dx, dy, dt)]
                on_grid(x, y, t, w, h, n) && i == index3(x, y, t, w, n) && near_state(
                    f,
                    w,
                    h,
                    n,
                    x,
                    y,
                    t,
                    dx,
                    dy,
                    dt,
                ),
    )
}

/// A set of states, state `(x, y, t)` at `(y * w + x) * n + t`.
pub struct Bitboard3D {
    pub w: u32,
    pub h: u32,
    pub n: u32,
    pub bits: Vec<bool>,
}

impl Bitboard3D {
    pub open spec fn wf(self) -> bool {
        &&& self.bits@.len() == self.w * self.h * self.n
        &&& self.w * self.h <= i32::MAX
        &&& self.w * self.h * self.n <= i32::MAX
        &&& self.n <= i32::MAX
    }

    /// The states of the set.
    pub open spec fn members(self) -> Set<int> {
        flag_set(self.bits@)
    }

    /// The empty set of states of a `w` by `h` map with `n` headings.
    pub fn new(w: u32, h: u32, n: u32) -> (r: Bitboard3D)
        requires
            w * h <= i32::MAX,
            w * h * n <= i32::MAX,
            n <= i32::MAX,
        ensures
            r.wf(),
            r.w == w,
            r.h == h,
            r.n == n,
            r.members() =~= Set::<int>::empty(),
            forall|c: int| 0 <= c < r.bits@.len() ==> !#[trigger] r.bits@[c],
    {
        let plane: u32 = w * h;
        let len: u32 = plane * n;
        Bitboard3D { w, h, n, bits: vec![false; len as usize] }
    }

    fn index(&self, x: u32, y: u32, t: u32) -> (r: usize)
        requires
            self.wf(),
            on_grid(x as int, y as int, t as int, self.w as int, self.h as int, self.n as int),
        ensures
            r == index3(x as int, y as int, t as int, self.w as int, self.n as int),
            r < self.bits.len(),
    {
        proof {
            lemma_cell_bound(x as int, y as int, self.w as int, self.h as int);
            lemma_index_bound(
                x as int,
                y as int,
                t as int,
                self.w as int,
                self.h as int,
                self.n as int,
            );
            assert(0 <= (y * self.w + x) * self.n) by (nonlinear_arith)
                requires
                    0 <= y * self.w + x,
                    0 <= self.n,
            ;
        }
        ((y * self.w + x) * self.n + t) as usize
    }

    /// Adds the state `(x, y, t)`.
    pub fn set(&mut self, x: u32, y: u32, t: u32)
        requires
            old(self).wf(),
            on_grid(
                x as int,
                y as int,
                t as int,
                old(self).w as int,
                old(self).h as int,
                old(self).n as int,
            ),
        ensures
            final(self).wf(),
            final(self).w == old(self).w,
            final(self).h == old(self).h,
            final(self).n == old(self).n,
            final(self).members() =~= old(self).members().insert(
                index3(x as int, y as int, t as int, old(self).w as int, old(self).n as int),
            ),
    {
        let i: usize = self.index(x, y, t);
        self.bits.set(i, true);
    }

    /// Whether the state `(x, y, t)` is in the set.
    pub fn get(&self, x: u32, y: u32, t: u32) -> (r: bool)
        requires
            self.wf(),
            on_grid(x as int, y as int, t as int, self.w as int, self.h as int, self.n as int),
        ensures
            r == self.members().contains(
                index3(x as int, y as int, t as int, self.w as int, self.n as int),
            ),
    {
        let i: usize = self.index(x, y, t);
        self.bits[i]
    }

    /// The number of states in the set.
    pub fn popcount(&self) -> (r: usize)
        ensures
            r == self.members().len(),
            self.members().finite(),
            r == 0 <==> self.members() =~= Set::<int>::empty(),
    {
        count_flags(&self.bits)
    }

    fn any_heading(&self, x: u32, y: u32, t: u32, dt: u32) -> (r: bool)
        requires
            self.wf(),
            on_grid(x as int, y as int, t as int, self.w as int, self.h as int, self.n as int),
        ensures
            r == near_heading(
                self.members(),
                self.w as int,
                self.n as int,
                x as int,
                y as int,
                t as int,
                dt as int,
            ),
    {
        let mut t2: u32 = 0;
        while t2 < self.n
            invariant
                self.wf(),
                on_grid(x as int, y as int, t as int, self.w as int, self.h as int, self.n as int),
                t2 <= self.n,
                forall|b: int|
                    0 <= b < t2 && turn_between(t as int, b, self.n as int) <= dt
                        ==> !self.members().contains(
                        #[trigger] index3(x as int, y as int, b, self.w as int, self.n as int),
                    ),
            decreases self.n - t2,
        {
            let d: i32 = turn_i32(t as i32, t2 as i32, self.n as i32);
            if d as u32 <= dt && self.get(x, y, t2) {
                assert(on_axis(t2 as int, self.n as int));
                return true;
            }
            t2 += 1;
        }
        false
    }

    /// The states at most `dt` headings away from a state of the set in the same cell.
    fn spread_headings(&self, dt: u32) -> (r: Bitboard3D)
        requires
            self.wf(),
        ensures
            r.wf(),
            r.w == self.w,
            r.h == self.h,
            r.n == self.n,
            forall|x: int, y: int, t: int|
                on_grid(x, y, t, self.w as int, self.h as int, self.n as int) ==> (r.members().contains(
                    #[trigger] index3(x, y, t, self.w as int, self.n as int),
                ) <==> near_heading(self.members(), self.w as int, self.n as int, x, y, t, dt as int)),
    {
        let mut out: Bitboard3D = Bitboard3D::new(self.w, self.h, self.n);
        let ghost wi = self.w as int;
        let ghost hi = self.h as int;
        let ghost ni = self.n as int;
        let mut y: u32 = 0;
        while y < self.h
            invariant
                self.wf(),
                out.wf(),
                out.w == self.w,
                out.h == self.h,
                out.n == self.n,
                wi == self.w,
                hi == self.h,
                ni == self.n,
                y <= self.h,
                forall|a: int, b: int, c: int|
                    on_grid(a, b, c, wi, hi, ni) && b < y ==> (out.members().contains(
                        #[trigger] index3(a, b, c, wi, ni),
                    ) <==> near_heading(self.members(), wi, ni, a, b, c, dt as int)),
            decreases self.h - y,
        {
            let mut x: u32 = 0;
            while x < self.w
                invariant
                    self.wf(),
                    out.wf(),
                    out.w == self.w,
                    out.h == self.h,
                    out.n == self.n,
                    wi == self.w,
                    hi == self.h,
                    ni == self.n,
                    y < self.h,
                    x <= self.w,
                    forall|a: int, b: int, c: int|
                        on_grid(a, b, c, wi, hi, ni) && (b < y || b == y && a < x)
                            ==> (out.members().contains(#[trigger] index3(a, b, c, wi, ni))
                            <==> near_heading(self.members(), wi, ni, a, b, c, dt as int)),
                decreases self.w - x,
            {
                let mut t: u32 = 0;
                while t < self.n
                    invariant
                        self.wf(),
                        out.wf(),
                        out.w == self.w,
                        out.h == self.h,
                        out.n == self.n,
                        wi == self.w,
                        hi == self.h,
                        ni == self.n,
                        y < self.h,
                        x < self.w,
                        t <= self.n,
                        forall|a: int, b: int, c: int|
                            on_grid(a, b, c, wi, hi, ni) && (b < y || b == y && (a < x || a == x
                                && c < t)) ==> (out.members().contains(#[trigger] index3(a, b, c, wi, ni))
                                <==> near_heading(self.members(), wi, ni, a, b, c, dt as int)),
                    decreases self.n - t,
                {
                    let i: usize = self.index(x, y, t);
                    let b: bool = self.any_heading(x, y, t, dt);
                    let ghost before = out.members();
                    out.bits.set(i, b);
                    proof {
                        assert forall|a: int, b2: int, c: int|
                            on_grid(a, b2, c, wi, hi, ni) && (b2 < y || b2 == y && (a < x || a == x
                                && c < t + 1)) implies (out.members().contains(
                            #[trigger] index3(a, b2, c, wi, ni),
                        ) <==> near_heading(self.members(), wi, ni, a, b2, c, dt as int)) by {
                            lemma_index_bound(a, b2, c, wi, hi, ni);
                            if index3(a, b2, c, wi, ni) == i {
                                lemma_index_injective(
                                    a,
                                    b2,
                                    c,
                                    x as int,
                                    y as int,
                                    t as int,
                                    wi,
                                    ni,
                                );
                            } else {
                                assert(before.contains(index3(a, b2, c, wi, ni)) == out.members().contains(
                                    index3(a, b2, c, wi, ni),
                                ));
                            }
                        }
                    }
                    t += 1;
                }
                x += 1;
            }
            y += 1;
        }
        out
    }

    fn any_cell(&self, x: u32, y: u32, t: u32, dx: u32, dy: u32) -> (r: bool)
        requires
            self.wf(),
            on_grid(x as int, y as int, t as int, self.w as int, self.h as int, self.n as int),
        ensures
            r == exists|x2: int, y2: int|
                on_axis(x2, self.w as int) && on_axis(y2, self.h as int) && within(
                    x as int,
                    x2,
                    dx as int,
                ) && within(y as int, y2, dy as int) && self.members().contains(
                    #[trigger] index3(x2, y2, t as int, self.w as int, self.n as int),
                ),
    {
        let x0: u32 = x.saturating_sub(dx);
        let x1: u32 = if self.w - 1 - x < dx {
            self.w - 1
        } else {
            x + dx
        };
        let y0: u32 = y.saturating_sub(dy);
        let y1: u32 = if self.h - 1 - y < dy {
            self.h - 1
        } else {
            y + dy
        };
        let ghost wi = self.w as int;
        let ghost ni = self.n as int;
        let mut yy: u32 = y0;
        while yy <= y1
            invariant
                self.wf(),
                on_grid(x as int, y as int, t as int, self.w as int, self.h as int, self.n as int),
                wi == self.w,
                ni == self.n,
                x0 <= x <= x1 < self.w,
                y0 <= yy <= y1 + 1,
                y1 < self.h,
                forall|a: int| on_axis(a, wi) && within(x as int, a, dx as int) <==> x0 <= a <= x1,
                forall|b: int|
                    on_axis(b, self.h as int) && within(y as int, b, dy as int) <==> y0 <= b <= y1,
                forall|a: int, b: int|
                    x0 <= a <= x1 && y0 <= b < yy ==> !self.members().contains(
                        #[trigger] index3(a, b, t as int, wi, ni),
                    ),
            decreases y1 + 1 - yy,
        {
            let mut xx: u32 = x0;
            while xx <= x1
                invariant
                    self.wf(),
                    on_grid(
                        x as int,
                        y as int,
                        t as int,
                        self.w as int,
                        self.h as int,
                        self.n as int,
                    ),
                    wi == self.w,
                    ni == self.n,
                    x0 <= xx <= x1 + 1,
                    x1 < self.w,
                    y0 <= yy <= y1,
                    y1 < self.h,
                    forall|a: int|
                        on_axis(a, wi) && within(x as int, a, dx as int) <==> x0 <= a <= x1,
                    forall|b: int|
                        on_axis(b, self.h as int) && within(y as int, b, dy as int) <==> y0 <= b
                            <= y1,
                    forall|a: int, b: int|
                        x0 <= a <= x1 && y0 <= b < yy ==> !self.members().contains(
                            #[trigger] index3(a, b, t as int, wi, ni),
                        ),
                    forall|a: int|
                        x0 <= a < xx ==> !self.members().contains(
                            #[trigger] index3(a, yy as int, t as int, wi, ni),
                        ),
                decreases x1 + 1 - xx,
            {
                if self.get(xx, yy, t) {
                    assert(on_axis(xx as int, wi) && on_axis(yy as int, self.h as int));
                    assert(within(x as int, xx as int, dx as int));
                    assert(within(y as int, yy as int, dy as int));
                    assert(self.members().contains(index3(xx as int, yy as int, t as int, wi, ni)));
                    return true;
                }
                xx += 1;
            }
            yy += 1;
        }
        false
    }

    /// The states at most `dx` columns, `dy` rows and `dt` headings away from a
    /// state of the set.
    pub fn dilate(&self, dx: u32, dy: u32, dt: u32) -> (r: Bitboard3D)
        requires
            self.wf(),
        ensures
            r.wf(),
            r.w == self.w,
            r.h == self.h,
            r.n == self.n,
            r.members() =~= dilated3(
                self.members(),
                self.w as int,
                self.h as int,
                self.n as int,
                dx as int,
                dy as int,
                dt as int,
            ),
    {
        let spread: Bitboard3D = self.spread_headings(dt);
        let mut out: Bitboard3D = Bitboard3D::new(self.w, self.h, self.n);
        let ghost f = self.members();
        let ghost wi = self.w as int;
        let ghost hi = self.h as int;
        let ghost ni = self.n as int;
        assert(spreads(f, spread.members(), wi, hi, ni, dt as int));
        let mut y: u32 = 0;
        while y < self.h
            invariant
                self.wf(),
                spread.wf(),
                spread.w == self.w,
                spread.h == self.h,
                spread.n == self.n,
                spreads(f, spread.members(), wi, hi, ni, dt as int),
                out.wf(),
                out.w == self.w,
                out.h == self.h,
                out.n == self.n,
                f == self.members(),
                wi == self.w,
                hi == self.h,
                ni == self.n,
                y <= self.h,
                forall|a: int, b: int, c: int|
                    on_grid(a, b, c, wi, hi, ni) && b < y ==> (out.members().contains(
                        #[trigger] index3(a, b, c, wi, ni),
                    ) <==> near_state(f, wi, hi, ni, a, b, c, dx as int, dy as int, dt as int)),
            decreases self.h - y,
        {
            let mut x: u32 = 0;
            while x < self.w
                invariant
                    self.wf(),
                    spread.wf(),
                    spread.w == self.w,
                    spread.h == self.h,
                    spread.n == self.n,
                    spreads(f, spread.members(), wi, hi, ni, dt as int),
                    out.wf(),
                    out.w == self.w,
                    out.h == self.h,
                    out.n == self.n,
                    f == self.members(),
                    wi == self.w,
                    hi == self.h,
                    ni == self.n,
                    y < self.h,
                    x <= self.w,
                    forall|a: int, b: int, c: int|
                        on_grid(a, b, c, wi, hi, ni) && (b < y || b == y && a < x) ==> (out.members().contains(
                            #[trigger] index3(a, b, c, wi, ni),
                        ) <==> near_state(f, wi, hi, ni, a, b, c, dx as int, dy as int, dt as int)),
                decreases self.w - x,
            {
                let mut t: u32 = 0;
                while t < self.n
                    invariant
                        self.wf(),
                        spread.wf(),
                        spread.w == self.w,
                        spread.h == self.h,
                        spread.n == self.n,
                        spreads(f, spread.members(), wi, hi, ni, dt as int),
                        out.wf(),
                        out.w == self.w,
                        out.h == self.h,
                        out.n == self.n,
                        f == self.members(),
                        wi == self.w,
                        hi == self.h,
                        ni == self.n,
                        y < self.h,
                        x < self.w,
                        t <= self.n,
                        forall|a: int, b: int, c: int|
                            on_grid(a, b, c, wi, hi, ni) && (b < y || b == y && (a < x || a == x && c < t))
                                ==> (out.members().contains(#[trigger] index3(a, b, c, wi, ni)) <==> near_state(
                                f,
                                wi,
                                hi,
                                ni,
                                a,
                                b,
                                c,
                                dx as int,
                                dy as int,
                                dt as int,
                            )),
                    decreases self.n - t,
                {
                    let i: usize = self.index(x, y, t);
                    let hit: bool = spread.any_cell(x, y, t, dx, dy);
                    let ghost before = out.members();
                    out.bits.set(i, hit);
                    proof {
                        lemma_near_state(
                            f,
                            spread.members(),
                            wi,
                            hi,
                            ni,
                            x as int,
                            y as int,
                            t as int,
                            dx as int,
                            dy as int,
                            dt as int,
                        );
                        assert forall|a: int, b: int, c: int|
                            on_grid(a, b, c, wi, hi, ni) && (b < y || b == y && (a < x || a == x
                                && c < t + 1)) implies (out.members().contains(
                            #[trigger] index3(a, b, c, wi, ni),
                        ) <==> near_state(
                            f,
                            wi,
                            hi,
                            ni,
                            a,
                            b,
                            c,
                            dx as int,
                            dy as int,
                            dt as int,
                        )) by {
                            lemma_index_bound(a, b, c, wi, hi, ni);
                            if index3(a, b, c, wi, ni) == i {
                                lemma_index_injective(
                                    a,
                                    b,
                                    c,
                                    x as int,
                                    y as int,
                                    t as int,
                                    wi,
                                    ni,
                                );
                            } else {
                                assert(before.contains(index3(a, b, c, wi, ni)) == out.members().contains(
                                    index3(a, b, c, wi, ni),
                                ));
                            }
                        }
                    }
                    t += 1;
                }
                x += 1;
            }
            y += 1;
        }
        proof {
            let goal = dilated3(f, wi, hi, ni, dx as int, dy as int, dt as int);
            assert forall|i: int| out.members().contains(i) <==> goal.contains(i) by {
                if out.members().contains(i) {
                    lemma_encode(i, wi, hi, ni);
                    let (a, b, c) = (x_of(i, wi, ni), y_of(i, wi, ni), t_of(i, ni));
                    assert(out.members().contains(index3(a, b, c, wi, ni)));
                    assert(near_state(f, wi, hi, ni, a, b, c, dx as int, dy as int, dt as int));
                }
                if goal.contains(i) {
                    let (a, b, c) = choose|a: int, b: int, c: int|
                        #![trigger near_state(f, wi, hi, ni, a, b, c, dx as int, dy as int, dt as int)]
                        on_grid(a, b, c, wi, hi, ni) && i == index3(a, b, c, wi, ni) && near_state(
                            f,
                            wi,
                            hi,
                            ni,
                            a,
                            b,
                            c,
                            dx as int,
                            dy as int,
                            dt as int,
                        );
                    assert(out.members().contains(index3(a, b, c, wi, ni)));
                }
            }
        }
        out
    }
}

/// `g` holds the states whose cell has a member of `f` at most `dt` headings away.
spec fn spreads(f: Set<int>, g: Set<int>, w: int, h: int, n: int, dt: int) -> bool {
    forall|x: int, y: int, t: int|
        on_grid(x, y, t, w, h, n) ==> (g.contains(#[trigger] index3(x, y, t, w, n))
            <==> near_heading(f, w, n, x, y, t, dt))
}

proof fn lemma_near_state(
    f: Set<int>,
    g: Set<int>,
    w: int,
    h: int,
    n: int,
    x: int,
    y: int,
    t: int,
    dx: int,
    dy: int,
    dt: int,
)
    requires
        spreads(f, g, w, h, n, dt),
        on_grid(x, y, t, w, h, n),
    ensures
        near_state(f, w, h, n, x, y, t, dx, dy, dt) == exists|x2: int, y2: int|
            on_axis(x2, w) && on_axis(y2, h) && within(x, x2, dx) && within(y, y2, dy)
                && g.contains(#[trigger] index3(x2, y2, t, w, n)),
{
    if near_state(f, w, h, n, x, y, t, dx, dy, dt) {
        let (x2, y2) = choose|x2: int, y2: int|
            on_axis(x2, w) && on_axis(y2, h) && within(x, x2, dx) && within(y, y2, dy)
                && #[trigger] near_heading(f, w, n, x2, y2, t, dt);
        assert(g.contains(index3(x2, y2, t, w, n)));
    }
}

/// Widening marks the cells of the board that lie at most `dx` columns and `dy` rows from a
/// marked one, on either side.
pub proof fn law_dilation_reaches(
    f: Set<int>,
    w: int,
    h: int,
    dx: int,
    dy: int,
    x: int,
    y: int,
    u: int,
    v: int,
)
    requires
        on_axis(x, w),
        on_axis(y, h),
        on_axis(u, w),
        on_axis(v, h),
        f.contains(v * w + u),
    ensures
        -dx <= x - u <= dx && -dy <= y - v <= dy ==> dilated(f, w, h, dx, dy).contains(y * w + x),
        0 <= dx && 0 <= dy ==> dilated(f, w, h, dx, dy).contains(v * w + u),
{
    if -dx <= x - u <= dx && -dy <= y - v <= dy {
        assert(near_cell(f, w, h, x, y, dx, dy));
    }
    if 0 <= dx && 0 <= dy {
        assert(near_cell(f, w, h, u, v, dx, dy));
    }
}

/// A cell with no marked cell in reach stays unmarked.
pub proof fn law_dilation_reaches_no_farther(
    f: Set<int>,
    w: int,
    h: int,
    dx: int,
    dy: int,
    x: int,
    y: int,
)
    requires
        on_axis(x, w),
        on_axis(y, h),
        forall|u: int, v: int|
            #![trigger f.contains(v * w + u)]
            on_axis(u, w) && on_axis(v, h) && f.contains(v * w + u) ==> x - u > dx || u - x > dx
                || y - v > dy || v - y > dy,
    ensures
        !dilated(f, w, h, dx, dy).contains(y * w + x),
{
    if dilated(f, w, h, dx, dy).contains(y * w + x) {
        let (a, b) = choose|a: int, b: int|
            #![trigger near_cell(f, w, h, a, b, dx, dy)]
            on_axis(a, w) && on_axis(b, h) && y * w + x == b * w + a && near_cell(
                f,
                w,
                h,
                a,
                b,
                dx,
                dy,
            );
        crate::grid::lemma_cell_injective(a, b, x, y, w);
    }
}

/// In three dimensions widening also reaches `dt` headings on and back, round the circle.
pub proof fn law_dilation3_reaches(
    f: Set<int>,
    w: int,
    h: int,
    n: int,
    d: (int, int, int),
    p: (int, int, int),
    q: (int, int, int),
)
    requires
        on_grid(p.0, p.1, p.2, w, h, n),
        on_grid(q.0, q.1, q.2, w, h, n),
        f.contains(index3(q.0, q.1, q.2, w, n)),
        -d.0 <= p.0 - q.0 <= d.0,
        -d.1 <= p.1 - q.1 <= d.1,
        -d.2 <= p.2 - q.2 <= d.2 || p.2 - q.2 >= n - d.2 || q.2 - p.2 >= n - d.2,
    ensures
        dilated3(f, w, h, n, d.0, d.1, d.2).contains(index3(p.0, p.1, p.2, w, n)),
{
    assert(turn_between(p.2, q.2, n) <= d.2);
    assert(near_heading(f, w, n, q.0, q.1, p.2, d.2));
    assert(near_state(f, w, h, n, p.0, p.1, p.2, d.0, d.1, d.2));
}

} // verus!
