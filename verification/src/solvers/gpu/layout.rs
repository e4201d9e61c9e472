//! How states are laid out for the kernels.
//!
//! States stand heading by heading, each heading a plane of cells with a margin as
//! wide as actions reach, so that kernels need no bounds checks.
use vstd::prelude::*;

use crate::grid::{lemma_cell_bound, lemma_cell_injective, on_axis, on_grid};
use crate::solvers::displacement::{displacement, reach, Axis};
use crate::state::State;
use crate::value_iterator::ValueIterator;

verus! {

/// Threads per block of a kernel launch.
pub const BLOCK: u32 = 256;

/// The padded layout of a lattice.
#[derive(Clone, Copy, Debug, PartialEq, Eq, Structural)]
pub struct GpuLayout {
    pub nx: i32,
    pub ny: i32,
    pub nt: i32,
    /// Width of the margin left and right, and below and above.
    pub mx: i32,
    pub my: i32,
}

impl GpuLayout {
    /// Columns of a padded plane.
    pub open spec fn width(self) -> int {
        self.nx + 2 * self.mx
    }

    /// Rows of a padded plane.
    pub open spec fn height(self) -> int {
        self.ny + 2 * self.my
    }

    /// Cells of a padded plane.
    pub open spec fn plane(self) -> int {
        self.width() * self.height()
    }

    /// Entries of all planes.
    pub open spec fn len(self) -> int {
        self.plane() * self.nt
    }

    /// The layout's numbers fit.
    pub open spec fn wf(self) -> bool {
        &&& 0 <= self.nx
        &&& 0 <= self.ny
        &&& 0 <= self.nt
        &&& 0 <= self.mx
        &&& 0 <= self.my
        &&& self.width() <= i32::MAX
        &&& self.height() <= i32::MAX
        &&& self.plane() <= i32::MAX
        &&& self.len() <= usize::MAX
    }

    /// The layout is one of `vi`.
    pub open spec fn lays_out(self, vi: ValueIterator) -> bool {
        &&& self.nx == vi.cell_num_x
        &&& self.ny == vi.cell_num_y
        &&& self.nt == vi.cell_num_t
        &&& self.mx == reach(vi.model(), Axis::X)
        &&& self.my == reach(vi.model(), Axis::Y)
    }

    /// Position of the cell `(ix, iy)` in a padded plane.
    pub open spec fn column(self, ix: int, iy: int) -> int {
        (iy + self.my) * self.width() + (ix + self.mx)
    }

    /// Position of the state `(ix, iy, it)`.
    pub open spec fn at(self, ix: int, iy: int, it: int) -> int {
        it * self.plane() + self.column(ix, iy)
    }

    /// The state at a padded cell and heading, if there is one.
    pub open spec fn state_at(self, s: Seq<State>, px: int, py: int, it: int) -> Option<State> {
        let (x, y) = (px - self.mx, py - self.my);
        if on_axis(x, self.nx as int) && on_axis(y, self.ny as int) {
            Some(s[crate::grid::index3(x, y, it, self.nx as int, self.nt as int)])
        } else {
            None
        }
    }
}

/// A padded position lies in its plane.
pub proof fn lemma_padded(l: GpuLayout, px: int, py: int, it: int)
    requires
        l.wf(),
        on_axis(px, l.width()),
        on_axis(py, l.height()),
        on_axis(it, l.nt as int),
    ensures
        0 <= py * l.width() + px < l.plane(),
        0 <= it * l.plane(),
        0 <= it * l.plane() + py * l.width() + px < l.len(),
{
    lemma_cell_bound(px, py, l.width(), l.height());
    let p = l.plane();
    let c = py * l.width() + px;
    assert(0 <= it * p && it * p + p <= p * l.nt) by (nonlinear_arith)
        requires
            0 <= it,
            it + 1 <= l.nt,
            0 <= p,
    ;
}

impl GpuLayout {
    /// The layout for a map.
    pub fn new(vi: &ValueIterator) -> (r: Option<GpuLayout>)
        requires
            vi.wf(),
        ensures
            match r {
                Some(l) => l.wf() && l.lays_out(*vi),
                None => forall|l: GpuLayout| l.lays_out(*vi) ==> !#[trigger] l.wf(),
            },
    {
        let (mx, my, mt) = displacement(vi);
        let l = GpuLayout {
            nx: vi.cell_num_x,
            ny: vi.cell_num_y,
            nt: vi.cell_num_t,
            mx,
            my,
        };
        proof {
            assert forall|k: GpuLayout| k.lays_out(*vi) implies k == l by {}
        }
        let w: i64 = l.nx as i64 + 2 * l.mx as i64;
        let h: i64 = l.ny as i64 + 2 * l.my as i64;
        if w > i32::MAX as i64 || h > i32::MAX as i64 {
            return None;
        }
        assert(0 <= w * h <= 0x7fff_ffff * 0x7fff_ffff) by (nonlinear_arith)
            requires
                0 <= w <= 0x7fff_ffff,
                0 <= h <= 0x7fff_ffff,
        ;
        let p: i64 = w * h;
        if p > i32::MAX as i64 {
            return None;
        }
        assert(0 <= p * l.nt <= 0x7fff_ffff * 0x7fff_ffff) by (nonlinear_arith)
            requires
                0 <= p <= 0x7fff_ffff,
                0 <= l.nt <= 0x7fff_ffff,
        ;
        let n: i64 = p * l.nt as i64;
        if n as u64 > usize::MAX as u64 {
            return None;
        }
        Some(l)
    }

    /// Columns of a padded plane.
    pub fn nx_pad(&self) -> (r: i32)
        requires
            self.wf(),
        ensures
            r == self.width(),
    {
        self.nx + 2 * self.mx
    }

    /// Cells of a padded plane.
    pub fn n_cols(&self) -> (r: usize)
        requires
            self.wf(),
        ensures
            r == self.plane(),
    {
        (self.nx_pad() * (self.ny + 2 * self.my)) as usize
    }

    /// Entries of all planes.
    pub fn n_pad(&self) -> (r: usize)
        requires
            self.wf(),
        ensures
            r == self.len(),
    {
        self.n_cols() * self.nt as usize
    }

    /// Position of the state `(ix, iy, it)`.
    pub fn idx(&self, ix: i32, iy: i32, it: i32) -> (r: usize)
        requires
            self.wf(),
            on_grid(
                ix as int,
                iy as int,
                it as int,
                self.nx as int,
                self.ny as int,
                self.nt as int,
            ),
        ensures
            r == self.at(ix as int, iy as int, it as int),
            r < self.len(),
            r as int % self.plane() == self.column(ix as int, iy as int),
            0 <= self.column(ix as int, iy as int) < self.plane(),
    {
        proof {
            lemma_padded(*self, ix + self.mx, iy + self.my, it as int);
            let p = self.plane();
            vstd::arithmetic::div_mod::lemma_fundamental_div_mod_converse(
                self.at(ix as int, iy as int, it as int),
                p,
                it as int,
                self.column(ix as int, iy as int),
            );
            assert(0 <= (iy + self.my) * self.width() <= self.plane()) by {
                lemma_cell_bound(ix + self.mx, iy + self.my, self.width(), self.height());
            }
        }
        let col: i32 = (iy + self.my) * self.nx_pad() + (ix + self.mx);
        it as usize * self.n_cols() + col as usize
    }
}

/// What standing in a state costs.
pub open spec fn charge(s: State) -> int {
    s.penalty + s.local_penalty
}

/// The kernels store what standing in a state costs in 32 bits; this is too much.
#[derive(Clone, Copy, Debug, PartialEq, Eq, Structural)]
pub struct PenaltyTooLarge {
    pub penalty: u128,
}

/// The entry for one state's cost.
pub open spec fn pen_entry(s: Option<State>) -> u32 {
    match s {
        Some(st) => charge(st) as u32,
        None => 0,
    }
}

/// The entry for one state's freedom.
pub open spec fn free_entry(s: Option<State>) -> u8 {
    match s {
        Some(st) => if st.free {
            1
        } else {
            0
        },
        None => 0,
    }
}

/// One of the headings of a padded cell is free.
pub open spec fn any_free(l: GpuLayout, s: Seq<State>, px: int, py: int, n: int) -> bool {
    exists|it: int| 0 <= it < n && free_entry(#[trigger] l.state_at(s, px, py, it)) == 1
}

/// The planes hold what they should for every padded cell and heading.
pub open spec fn planes_ok(
    l: GpuLayout,
    s: Seq<State>,
    pens: Seq<u32>,
    frees: Seq<u8>,
    col_free: Seq<u8>,
) -> bool {
    &&& pens.len() == l.len()
    &&& frees.len() == l.len()
    &&& col_free.len() == l.plane()
    &&& forall|px: int, py: int, it: int|
        #![trigger l.state_at(s, px, py, it)]
        on_axis(px, l.width()) && on_axis(py, l.height()) && on_axis(it, l.nt as int) ==> {
            let j = it * l.plane() + (py * l.width() + px);
            &&& pens[j] == pen_entry(l.state_at(s, px, py, it))
            &&& frees[j] == free_entry(l.state_at(s, px, py, it))
        }
    &&& forall|px: int, py: int|
        #![trigger any_free(l, s, px, py, l.nt as int)]
        on_axis(px, l.width()) && on_axis(py, l.height()) ==> col_free[py * l.width() + px]
            == if any_free(l, s, px, py, l.nt as int) {
            1u8
        } else {
            0u8
        }
}

/// The first state whose cost does not fit 32 bits, if there is one, among the first
/// `n`.
pub open spec fn first_excess(s: Seq<State>, n: int) -> Option<int>
    decreases n,
{
    if n <= 0 {
        None
    } else {
        match first_excess(s, n - 1) {
            Some(p) => Some(p),
            None => if charge(s[n - 1]) > u32::MAX {
                Some(charge(s[n - 1]))
            } else {
                None
            },
        }
    }
}

/// The cost of the first state that is too large to store.
pub fn find_excess(states: &Vec<State>) -> (r: Option<u128>)
    ensures
        match r {
            None => first_excess(states@, states@.len() as int) is None && forall|i: int|
                0 <= i < states@.len() ==> charge(#[trigger] states@[i]) <= u32::MAX,
            Some(p) => first_excess(states@, states@.len() as int) == Some(p as int),
        },
{
    let mut i: usize = 0;
    while i < states.len()
        invariant
            i <= states.len(),
            first_excess(states@, i as int) is None,
            forall|j: int| 0 <= j < i ==> charge(#[trigger] states@[j]) <= u32::MAX,
        decreases states.len() - i,
    {
        let p: u128 = states[i].penalty as u128 + states[i].local_penalty as u128;
        i += 1;
        if p > u32::MAX as u128 {
            proof {
                lemma_excess_stays(states@, i as int, states@.len() as int);
            }
            return Some(p);
        }
    }
    None
}

proof fn lemma_excess_stays(s: Seq<State>, i: int, n: int)
    requires
        first_excess(s, i) is Some,
        i <= n,
    ensures
        first_excess(s, n) == first_excess(s, i),
    decreases n,
{
    if i < n {
        lemma_excess_stays(s, i, n - 1);
    }
}

/// The planes for the states of a map.
pub fn fill_planes(vi: &ValueIterator, l: &GpuLayout) -> (r: (Vec<u32>, Vec<u8>, Vec<u8>))
    requires
        vi.wf(),
        l.wf(),
        l.lays_out(*vi),
        forall|i: int| 0 <= i < vi.states@.len() ==> charge(#[trigger] vi.states@[i]) <= u32::MAX,
    ensures
        planes_ok(*l, vi.states@, r.0@, r.1@, r.2@),
{
    let ghost s = vi.states@;
    let w: i32 = l.nx_pad();
    let h: i32 = l.ny + 2 * l.my;
    let cols: usize = l.n_cols();
    let n: usize = l.n_pad();
    let nt: i32 = l.nt;
    let mut pens: Vec<u32> = vec![0; n];
    let mut frees: Vec<u8> = vec![0; n];
    let mut col_free: Vec<u8> = vec![0; cols];
    let mut py: i32 = 0;
    while py < h
        invariant
            vi.wf(),
            l.wf(),
            l.lays_out(*vi),
            s == vi.states@,
            forall|i: int| 0 <= i < s.len() ==> charge(#[trigger] s[i]) <= u32::MAX,
            w == l.width(),
            h == l.height(),
            nt == l.nt,
            cols == l.plane(),
            n == l.len(),
            pens@.len() == n,
            frees@.len() == n,
            col_free@.len() == cols,
            0 <= py <= h,
            planes_upto(*l, s, pens@, frees@, col_free@, 0, py as int, 0),
        decreases h - py,
    {
        let mut px: i32 = 0;
        while px < w
            invariant
                vi.wf(),
                l.wf(),
                l.lays_out(*vi),
                s == vi.states@,
                forall|i: int| 0 <= i < s.len() ==> charge(#[trigger] s[i]) <= u32::MAX,
                w == l.width(),
                h == l.height(),
                nt == l.nt,
                cols == l.plane(),
                n == l.len(),
                pens@.len() == n,
                frees@.len() == n,
                col_free@.len() == cols,
                0 <= py < h,
                0 <= px <= w,
                planes_upto(*l, s, pens@, frees@, col_free@, px as int, py as int, 0),
            decreases w - px,
        {
            let mut any: bool = false;
            let mut it: i32 = 0;
            proof {
                lemma_cell_bound(px as int, py as int, w as int, h as int);
            }
            let c: usize = (py * w + px) as usize;
            while it < nt
                invariant
                    vi.wf(),
                    l.wf(),
                    l.lays_out(*vi),
                    s == vi.states@,
                    forall|i: int| 0 <= i < s.len() ==> charge(#[trigger] s[i]) <= u32::MAX,
                    w == l.width(),
                    h == l.height(),
                    nt == l.nt,
                    cols == l.plane(),
                    n == l.len(),
                    pens@.len() == n,
                    frees@.len() == n,
                    col_free@.len() == cols,
                    0 <= py < h,
                    0 <= px < w,
                    0 <= it <= nt,
                    c == py * w + px,
                    c < cols,
                    any == any_free(*l, s, px as int, py as int, it as int),
                    planes_upto(*l, s, pens@, frees@, col_free@, px as int, py as int, it as int),
                decreases nt - it,
            {
                proof {
                    lemma_padded(*l, px as int, py as int, it as int);
                }
                let j: usize = it as usize * cols + c;
                let x: i32 = px - l.mx;
                let y: i32 = py - l.my;
                let mut p: u32 = 0;
                let mut f: u8 = 0;
                if x >= 0 && x < l.nx && y >= 0 && y < l.ny {
                    let i: usize = vi.to_index(x, y, it) as usize;
                    let st: &State = &vi.states[i];
                    assert(charge(s[i as int]) <= u32::MAX);
                    p = (st.penalty + st.local_penalty) as u32;
                    if st.free {
                        f = 1;
                    }
                }
                let ghost (p0, f0) = (pens@, frees@);
                proof {
                    assert(p == pen_entry(l.state_at(s, px as int, py as int, it as int)));
                    assert(f == free_entry(l.state_at(s, px as int, py as int, it as int)));
                }
                pens.set(j, p);
                frees.set(j, f);
                let ghost any0 = any;
                if f == 1 {
                    any = true;
                    assert(free_entry(l.state_at(s, px as int, py as int, it as int)) == 1);
                }
                proof {
                    lemma_planes_step(
                        *l,
                        s,
                        p0,
                        f0,
                        pens@,
                        frees@,
                        col_free@,
                        px as int,
                        py as int,
                        it as int,
                    );
                    if any_free(*l, s, px as int, py as int, it + 1) && !any0 {
                        let k = choose|k: int|
                            0 <= k < it + 1 && free_entry(
                                #[trigger] l.state_at(s, px as int, py as int, k),
                            ) == 1;
                        if k < it {
                            assert(any_free(*l, s, px as int, py as int, it as int));
                        }
                    }
                    if any0 {
                        let k = choose|k: int|
                            0 <= k < it && free_entry(
                                #[trigger] l.state_at(s, px as int, py as int, k),
                            ) == 1;
                        assert(free_entry(l.state_at(s, px as int, py as int, k)) == 1);
                    }
                }
                it += 1;
            }
            let ghost c0 = col_free@;
            col_free.set(
                c,
                if any {
                    1
                } else {
                    0
                },
            );
            proof {
                lemma_planes_next(
                    *l,
                    s,
                    pens@,
                    frees@,
                    c0,
                    col_free@,
                    px as int,
                    py as int,
                );
            }
            px += 1;
        }
        py += 1;
    }
    (pens, frees, col_free)
}

/// The planes hold what they should for what comes before padded cell `(x, y)` and
/// heading `t`.
spec fn planes_upto(
    l: GpuLayout,
    s: Seq<State>,
    pens: Seq<u32>,
    frees: Seq<u8>,
    col_free: Seq<u8>,
    x: int,
    y: int,
    t: int,
) -> bool {
    &&& forall|px: int, py: int, it: int|
        #![trigger l.state_at(s, px, py, it)]
        on_axis(px, l.width()) && on_axis(py, l.height()) && on_axis(it, l.nt as int) && (py < y
            || py == y && (px < x || px == x && it < t)) ==> {
            let j = it * l.plane() + (py * l.width() + px);
            &&& pens[j] == pen_entry(l.state_at(s, px, py, it))
            &&& frees[j] == free_entry(l.state_at(s, px, py, it))
        }
    &&& forall|px: int, py: int|
        #![trigger any_free(l, s, px, py, l.nt as int)]
        on_axis(px, l.width()) && on_axis(py, l.height()) && (py < y || py == y && px < x)
            ==> col_free[py * l.width() + px] == if any_free(l, s, px, py, l.nt as int) {
            1u8
        } else {
            0u8
        }
}

proof fn lemma_planes_step(
    l: GpuLayout,
    s: Seq<State>,
    p0: Seq<u32>,
    f0: Seq<u8>,
    p1: Seq<u32>,
    f1: Seq<u8>,
    cf: Seq<u8>,
    x: int,
    y: int,
    t: int,
)
    requires
        l.wf(),
        planes_upto(l, s, p0, f0, cf, x, y, t),
        on_axis(x, l.width()),
        on_axis(y, l.height()),
        on_axis(t, l.nt as int),
        p0.len() == l.len(),
        f0.len() == l.len(),
        ({
            let j = t * l.plane() + (y * l.width() + x);
            &&& p1 == p0.update(j, pen_entry(l.state_at(s, x, y, t)))
            &&& f1 == f0.update(j, free_entry(l.state_at(s, x, y, t)))
        }),
    ensures
        planes_upto(l, s, p1, f1, cf, x, y, t + 1),
{
    lemma_padded(l, x, y, t);
    assert forall|px: int, py: int, it: int|
        #![trigger l.state_at(s, px, py, it)]
        on_axis(px, l.width()) && on_axis(py, l.height()) && on_axis(it, l.nt as int) && (py < y
            || py == y && (px < x || px == x && it < t + 1)) implies {
        let j = it * l.plane() + (py * l.width() + px);
        &&& p1[j] == pen_entry(l.state_at(s, px, py, it))
        &&& f1[j] == free_entry(l.state_at(s, px, py, it))
    } by {
        lemma_padded(l, px, py, it);
        if !(px == x && py == y && it == t) {
            let (c1, c2) = (py * l.width() + px, y * l.width() + x);
            if it * l.plane() + c1 == t * l.plane() + c2 {
                lemma_cell_injective(c1, it, c2, t, l.plane());
                lemma_cell_injective(px, py, x, y, l.width());
            }
        }
    }
}

proof fn lemma_planes_next(
    l: GpuLayout,
    s: Seq<State>,
    pens: Seq<u32>,
    frees: Seq<u8>,
    c0: Seq<u8>,
    c1: Seq<u8>,
    x: int,
    y: int,
)
    requires
        l.wf(),
        planes_upto(l, s, pens, frees, c0, x, y, l.nt as int),
        on_axis(x, l.width()),
        on_axis(y, l.height()),
        c0.len() == l.plane(),
        c1 == c0.update(
            y * l.width() + x,
            if any_free(l, s, x, y, l.nt as int) {
                1u8
            } else {
                0u8
            },
        ),
    ensures
        planes_upto(l, s, pens, frees, c1, x + 1, y, 0),
{
    lemma_cell_bound(x, y, l.width(), l.height());
    assert forall|px: int, py: int|
        #![trigger any_free(l, s, px, py, l.nt as int)]
        on_axis(px, l.width()) && on_axis(py, l.height()) && (py < y || py == y && px < x
            + 1) implies c1[py * l.width() + px] == if any_free(l, s, px, py, l.nt as int) {
        1u8
    } else {
        0u8
    } by {
        lemma_cell_bound(px, py, l.width(), l.height());
        if py * l.width() + px == y * l.width() + x {
            lemma_cell_injective(px, py, x, y, l.width());
        }
    }
}

/// No two states share a place, and no place of a state lies in the margin.
pub proof fn law_states_have_their_own_places(
    l: GpuLayout,
    x1: int,
    y1: int,
    t1: int,
    x2: int,
    y2: int,
    t2: int,
)
    requires
        l.wf(),
        on_grid(x1, y1, t1, l.nx as int, l.ny as int, l.nt as int),
        on_grid(x2, y2, t2, l.nx as int, l.ny as int, l.nt as int),
        l.at(x1, y1, t1) == l.at(x2, y2, t2),
    ensures
        (x1, y1, t1) == (x2, y2, t2),
        0 <= l.at(x1, y1, t1) < l.len(),
        l.mx <= l.column(x1, y1) % l.width() < l.mx + l.nx,
        l.my <= l.column(x1, y1) / l.width() < l.my + l.ny,
{
    lemma_cell_bound(x1 + l.mx, y1 + l.my, l.width(), l.height());
    lemma_cell_bound(x2 + l.mx, y2 + l.my, l.width(), l.height());
    let (c1, c2, p, w) = (l.column(x1, y1), l.column(x2, y2), l.plane(), l.width());
    let i = l.at(x1, y1, t1);
    vstd::arithmetic::div_mod::lemma_fundamental_div_mod_converse(i, p, t1, c1);
    vstd::arithmetic::div_mod::lemma_fundamental_div_mod_converse(i, p, t2, c2);
    vstd::arithmetic::div_mod::lemma_fundamental_div_mod_converse(c1, w, y1 + l.my, x1 + l.mx);
    vstd::arithmetic::div_mod::lemma_fundamental_div_mod_converse(c2, w, y2 + l.my, x2 + l.mx);
    let nt = l.nt as int;
    assert(0 <= t1 * p + c1 < p * nt) by (nonlinear_arith)
        requires
            0 <= t1,
            t1 + 1 <= nt,
            0 <= c1 < p,
    ;
}

/// The penalty that is refused is that of the first state whose two penalties together do not
/// fit; none is refused where all fit.
pub proof fn law_first_excess_is_refused(s: Seq<State>, n: int)
    requires
        0 <= n <= s.len(),
    ensures
        match first_excess(s, n) {
            None => forall|i: int|
                0 <= i < n ==> (#[trigger] s[i]).penalty + s[i].local_penalty <= u32::MAX,
            Some(p) => p > u32::MAX && exists|i: int|
                0 <= i < n && (#[trigger] s[i]).penalty + s[i].local_penalty == p && forall|j: int|
                    0 <= j < i ==> (#[trigger] s[j]).penalty + s[j].local_penalty <= u32::MAX,
        },
    decreases n,
{
    if n > 0 {
        law_first_excess_is_refused(s, n - 1);
        if first_excess(s, n - 1) is None && charge(s[n - 1]) > u32::MAX {
            assert(s[n - 1].penalty + s[n - 1].local_penalty == first_excess(s, n)->0);
        }
    }
}

/// What the planes hold for a state of the map is that state's: its penalties together and
/// whether it is free; in the margin nothing is free.
pub proof fn law_planes_show_the_states(
    l: GpuLayout,
    s: Seq<State>,
    pens: Seq<u32>,
    frees: Seq<u8>,
    col_free: Seq<u8>,
    x: int,
    y: int,
    t: int,
)
    requires
        l.wf(),
        planes_ok(l, s, pens, frees, col_free),
        on_axis(x + l.mx, l.width()),
        on_axis(y + l.my, l.height()),
        on_axis(t, l.nt as int),
        on_grid(x, y, t, l.nx as int, l.ny as int, l.nt as int) ==> {
            let st = s[crate::grid::index3(x, y, t, l.nx as int, l.nt as int)];
            st.penalty + st.local_penalty <= u32::MAX
        },
    ensures
        ({
            let st = s[crate::grid::index3(x, y, t, l.nx as int, l.nt as int)];
            let inside = on_grid(x, y, t, l.nx as int, l.ny as int, l.nt as int);
            &&& inside ==> pens[l.at(x, y, t)] == st.penalty + st.local_penalty
            &&& frees[l.at(x, y, t)] == 1 <==> inside && st.free
            &&& frees[l.at(x, y, t)] == 1 ==> col_free[l.column(x, y)] == 1
        }),
{
    let st = l.state_at(s, x + l.mx, y + l.my, t);
    if free_entry(st) == 1 {
        assert(any_free(l, s, x + l.mx, y + l.my, l.nt as int));
    }
}

} // verus!
