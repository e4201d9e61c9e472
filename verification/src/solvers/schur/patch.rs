//! Portal patches: the states around a portal's centre, pinned and read together.
use vstd::prelude::*;

use crate::grid::{on_axis, on_grid};
use crate::model::{lemma_located, Grid};
use crate::params::MAX_COST;
use crate::solvers::schur::artifact::{clamp_unreached, clamped};
use crate::solvers::schur::tile::TileVi;
use crate::text::same_text;
use crate::state::State;

verus! {

/// States of a patch: three rows of three cells with three headings each.
pub const PATCH_LEN: i32 = 27;

/// Row of the `k`-th state of a patch, relative to the centre.
pub open spec fn off_y(k: int) -> int {
    k / 9 - 1
}

/// Column of the `k`-th state of a patch, relative to the centre.
pub open spec fn off_x(k: int) -> int {
    (k / 3) % 3 - 1
}

/// Heading of the `k`-th state of a patch, relative to the centre.
pub open spec fn off_t(k: int) -> int {
    k % 3 - 1
}

/// Heading of the `k`-th state of a patch with its centre at heading `ct`.
pub open spec fn patch_t(ct: int, k: int, nt: int) -> int {
    (ct + off_t(k)) % nt
}

/// `(x, y, t)` is the `k`-th state of the patch around `(cx, cy, ct)`.
pub open spec fn is_patch_state(
    k: int,
    cx: int,
    cy: int,
    ct: int,
    nt: int,
    x: int,
    y: int,
    t: int,
) -> bool {
    &&& x == cx + off_x(k)
    &&& y == cy + off_y(k)
    &&& t == patch_t(ct, k, nt)
}

/// `(x, y, t)` is one of the first `n` states of the patch around `(cx, cy, ct)`.
pub open spec fn in_patch(
    n: int,
    cx: int,
    cy: int,
    ct: int,
    nt: int,
    x: int,
    y: int,
    t: int,
) -> bool {
    exists|k: int| 0 <= k < n && #[trigger] is_patch_state(k, cx, cy, ct, nt, x, y, t)
}

/// A state made a goal worth `cost`.
pub open spec fn pinned(s: State, cost: u64) -> State {
    State { final_state: true, total_cost: cost, optimal_action: None, ..s }
}

/// A state of a patch that is pinned at `cost`: occupied states stay, and a state
/// that is a goal already keeps the smaller value.
pub open spec fn patch_pinned(s: State, cost: u64) -> State {
    if !s.free {
        s
    } else if s.final_state {
        State {
            total_cost: if s.total_cost <= cost {
                s.total_cost
            } else {
                cost
            },
            ..s
        }
    } else {
        pinned(s, cost)
    }
}

/// `s` after the first `n` states of the patch around `(cx, cy, ct)` were pinned.
pub open spec fn with_patch(
    s: Seq<State>,
    n: int,
    cx: int,
    cy: int,
    ct: int,
    nt: int,
    cost: u64,
) -> Seq<State> {
    s.map_values(
        |st: State|
            if in_patch(n, cx, cy, ct, nt, st.ix as int, st.iy as int, st.it as int) {
                patch_pinned(st, cost)
            } else {
                st
            },
    )
}

/// The `k`-th state of the patch lies in the domain and is free.
pub open spec fn patch_hit(g: Grid, s: Seq<State>, cx: int, cy: int, ct: int, k: int) -> bool {
    &&& on_axis(cx + off_x(k), g.nx)
    &&& on_axis(cy + off_y(k), g.ny)
    &&& s[g.at(cx + off_x(k), cy + off_y(k), patch_t(ct, k, g.nt))].free
}

/// The indices of the free states among the first `n` states of the patch.
pub open spec fn patch_list(
    g: Grid,
    s: Seq<State>,
    cx: int,
    cy: int,
    ct: int,
    n: int,
) -> Seq<int>
    decreases n,
{
    if n <= 0 {
        Seq::empty()
    } else {
        let p = patch_list(g, s, cx, cy, ct, n - 1);
        if patch_hit(g, s, cx, cy, ct, n - 1) {
            p.push(g.at(cx + off_x(n - 1), cy + off_y(n - 1), patch_t(ct, n - 1, g.nt)))
        } else {
            p
        }
    }
}

/// The free states of the whole patch.
pub open spec fn patch_of(g: Grid, s: Seq<State>, cx: int, cy: int, ct: int) -> Seq<int> {
    patch_list(g, s, cx, cy, ct, PATCH_LEN as int)
}

/// How the values of a patch are summed up. Only `Max` is a bound for the whole
/// patch; the others serve to measure how much that bound gives away.
#[derive(Clone, Copy, Debug, PartialEq, Eq, Structural)]
pub enum PatchAgg {
    Max,
    Center,
    Mean,
}

/// How a setting asks for patches to be summed up: by its name, or by the largest value.
pub fn patch_agg(setting: Option<&str>) -> (r: PatchAgg)
    ensures
        r == match setting {
            Some(s) => if s@ == "center"@ {
                PatchAgg::Center
            } else if s@ == "mean"@ {
                PatchAgg::Mean
            } else {
                PatchAgg::Max
            },
            None => PatchAgg::Max,
        },
{
    match setting {
        Some(s) => {
            if same_text(s, "center") {
                PatchAgg::Center
            } else if same_text(s, "mean") {
                PatchAgg::Mean
            } else {
                PatchAgg::Max
            }
        },
        None => PatchAgg::Max,
    }
}

/// Largest value among the first `n` states of `list`.
pub open spec fn list_max(s: Seq<State>, list: Seq<int>, n: int) -> u64
    decreases n,
{
    if n <= 0 {
        0
    } else {
        let p = list_max(s, list, n - 1);
        let v = clamped(s[list[n - 1]].total_cost);
        if v >= p {
            v
        } else {
            p
        }
    }
}

/// Sum of the values that are real among the first `n` states of `list`.
pub open spec fn list_sum(s: Seq<State>, list: Seq<int>, n: int) -> int
    decreases n,
{
    if n <= 0 {
        0
    } else {
        let v = clamped(s[list[n - 1]].total_cost);
        list_sum(s, list, n - 1) + if v < MAX_COST {
            v as int
        } else {
            0int
        }
    }
}

/// How many of the first `n` states of `list` have a real value.
pub open spec fn list_count(s: Seq<State>, list: Seq<int>, n: int) -> int
    decreases n,
{
    if n <= 0 {
        0
    } else {
        list_count(s, list, n - 1) + if clamped(s[list[n - 1]].total_cost) < MAX_COST {
            1int
        } else {
            0int
        }
    }
}

/// The value of a patch: `MAX_COST` where none of it is free.
pub open spec fn patch_value(
    g: Grid,
    s: Seq<State>,
    cx: int,
    cy: int,
    ct: int,
    agg: PatchAgg,
) -> u64 {
    let list = patch_of(g, s, cx, cy, ct);
    let n = list.len() as int;
    match agg {
        PatchAgg::Center => {
            let c = s[g.at(cx, cy, ct)];
            if on_axis(cx, g.nx) && on_axis(cy, g.ny) && c.free {
                clamped(c.total_cost)
            } else {
                MAX_COST
            }
        },
        PatchAgg::Max => if n == 0 {
            MAX_COST
        } else {
            list_max(s, list, n)
        },
        PatchAgg::Mean => if list_count(s, list, n) > 0 {
            (list_sum(s, list, n) / list_count(s, list, n)) as u64
        } else {
            MAX_COST
        },
    }
}

/// Heading `(ct + d) mod nt` for a step `d` of at most one.
fn step_heading(ct: i32, d: i32, nt: i32) -> (r: i32)
    requires
        0 <= ct < nt,
        -1 <= d <= 1,
    ensures
        r == (ct + d) % (nt as int),
        0 <= r < nt,
{
    proof {
        let m = nt as int;
        if ct + d < 0 {
            vstd::arithmetic::div_mod::lemma_fundamental_div_mod_converse(ct + d, m, -1, ct + d + m);
        } else if ct + d >= m {
            vstd::arithmetic::div_mod::lemma_fundamental_div_mod_converse(ct + d, m, 1, ct + d - m);
        } else {
            vstd::arithmetic::div_mod::lemma_fundamental_div_mod_converse(ct + d, m, 0, ct + d);
        }
    }
    if d < 0 && ct == 0 {
        nt - 1
    } else if d > 0 && ct == nt - 1 {
        0
    } else {
        ct + d
    }
}

/// The `k`-th state of the patch around `(cx, cy, ct)`, coordinates as they come.
pub(crate) fn patch_state(k: i32, cx: i32, cy: i32, ct: i32, nt: i32) -> (r: (i32, i32, i32))
    requires
        0 <= k < PATCH_LEN,
        i32::MIN < cx < i32::MAX,
        i32::MIN < cy < i32::MAX,
        0 <= ct < nt,
    ensures
        r.0 == cx + off_x(k as int),
        r.1 == cy + off_y(k as int),
        r.2 == patch_t(ct as int, k as int, nt as int),
        0 <= r.2 < nt,
{
    let dy: i32 = k / 9 - 1;
    let dx: i32 = (k / 3) % 3 - 1;
    let dt: i32 = k % 3 - 1;
    (cx + dx, cy + dy, step_heading(ct, dt, nt))
}

impl TileVi {
    /// Makes one state of the domain a goal worth `cost`.
    pub fn pin(&mut self, lx: i32, ly: i32, it: i32, cost: u64)
        requires
            old(self).wf(),
            on_grid(
                lx as int,
                ly as int,
                it as int,
                old(self).side as int,
                old(self).side as int,
                old(self).nt as int,
            ),
        ensures
            final(self).wf(),
            final(self).side == old(self).side,
            final(self).nt == old(self).nt,
            ({
                let i = old(self).grid().at(lx as int, ly as int, it as int);
                final(self).states@ == old(self).states@.update(
                    i,
                    pinned(old(self).states@[i], cost),
                )
            }),
    {
        let i: usize = self.index(lx, ly, it);
        let mut s: State = self.states[i];
        s.final_state = true;
        s.total_cost = cost;
        s.optimal_action = None;
        let ghost tg = self.grid();
        let ghost s0 = self.states@;
        assert(tg.located_at(s0[i as int], i as int));
        self.states.set(i, s);
        assert forall|j: int| 0 <= j < self.states@.len() implies tg.located_at(
            #[trigger] self.states@[j],
            j,
        ) by {
            assert(tg.located_at(s0[j], j));
        }
    }

    /// Pins the free states of a patch at `cost`.
    pub fn pin_patch(&mut self, lx: i32, ly: i32, it: i32, cost: u64)
        requires
            old(self).wf(),
            i32::MIN < lx < i32::MAX,
            i32::MIN < ly < i32::MAX,
            0 <= it < old(self).nt,
        ensures
            final(self).wf(),
            final(self).side == old(self).side,
            final(self).nt == old(self).nt,
            final(self).states@ =~= with_patch(
                old(self).states@,
                PATCH_LEN as int,
                lx as int,
                ly as int,
                it as int,
                old(self).nt as int,
                cost,
            ),
    {
        let ghost s0 = self.states@;
        let ghost tg = self.grid();
        let side: i32 = self.side;
        let nt: i32 = self.nt;
        let mut k: i32 = 0;
        while k < PATCH_LEN
            invariant
                0 <= k <= PATCH_LEN,
                self.wf(),
                self.side == side,
                self.nt == nt,
                tg == self.grid(),
                tg.located(s0),
                i32::MIN < lx < i32::MAX,
                i32::MIN < ly < i32::MAX,
                0 <= it < nt,
                self.states@ =~= with_patch(
                    s0,
                    k as int,
                    lx as int,
                    ly as int,
                    it as int,
                    nt as int,
                    cost,
                ),
            decreases PATCH_LEN - k,
        {
            let (x, y, t) = patch_state(k, lx, ly, it, nt);
            let ghost before = self.states@;
            let ghost (cx, cy, ct, n) = (lx as int, ly as int, it as int, nt as int);
            let mut hit: Option<usize> = None;
            if x >= 0 && x < side && y >= 0 && y < side {
                let i: usize = self.index(x, y, t);
                hit = Some(i);
                let mut s: State = self.states[i];
                proof {
                    lemma_located(tg, s0, x as int, y as int, t as int);
                    assert(tg.located_at(before[i as int], i as int));
                }
                if s.free {
                    if s.final_state {
                        if cost < s.total_cost {
                            s.total_cost = cost;
                        }
                    } else {
                        s.final_state = true;
                        s.total_cost = cost;
                        s.optimal_action = None;
                    }
                    self.states.set(i, s);
                }
            }
            proof {
                let goal = with_patch(s0, k + 1, cx, cy, ct, n, cost);
                assert forall|j: int| 0 <= j < s0.len() implies self.states@[j] == #[trigger] goal[j] by {
                    let st = s0[j];
                    let (a, b, c) = (st.ix as int, st.iy as int, st.it as int);
                    assert(tg.located_at(s0[j], j));
                    assert(before[j] == if in_patch(k as int, cx, cy, ct, n, a, b, c) {
                        patch_pinned(st, cost)
                    } else {
                        st
                    });
                    if is_patch_state(k as int, cx, cy, ct, n, a, b, c) {
                        assert(in_patch(k + 1, cx, cy, ct, n, a, b, c));
                        assert(hit == Some(j as usize));
                    } else {
                        assert(in_patch(k + 1, cx, cy, ct, n, a, b, c) == in_patch(
                            k as int,
                            cx,
                            cy,
                            ct,
                            n,
                            a,
                            b,
                            c,
                        ));
                        if hit == Some(j as usize) {
                            assert(s0[j].ix == x && s0[j].iy == y && s0[j].it == t);
                            assert(false);
                        }
                    }
                }
                assert forall|j: int| 0 <= j < self.states@.len() implies tg.located_at(
                    #[trigger] self.states@[j],
                    j,
                ) by {
                    assert(tg.located_at(before[j], j));
                }
            }
            k += 1;
        }
    }

    /// The free states of a patch that lie in the domain, by index.
    pub fn patch_local(&self, lx: i32, ly: i32, it: i32) -> (r: Vec<usize>)
        requires
            self.wf(),
            i32::MIN < lx < i32::MAX,
            i32::MIN < ly < i32::MAX,
            0 <= it < self.nt,
        ensures
            r@.map_values(|i: usize| i as int) =~= patch_of(
                self.grid(),
                self.states@,
                lx as int,
                ly as int,
                it as int,
            ),
            forall|j: int| 0 <= j < r@.len() ==> (#[trigger] r@[j]) < self.states@.len(),
    {
        let mut out: Vec<usize> = Vec::new();
        let ghost g = self.grid();
        let ghost f = |i: usize| i as int;
        let mut k: i32 = 0;
        while k < PATCH_LEN
            invariant
                0 <= k <= PATCH_LEN,
                self.wf(),
                g == self.grid(),
                f == (|i: usize| i as int),
                i32::MIN < lx < i32::MAX,
                i32::MIN < ly < i32::MAX,
                0 <= it < self.nt,
                out@.map_values(f) =~= patch_list(
                    g,
                    self.states@,
                    lx as int,
                    ly as int,
                    it as int,
                    k as int,
                ),
                forall|j: int| 0 <= j < out@.len() ==> (#[trigger] out@[j]) < self.states@.len(),
            decreases PATCH_LEN - k,
        {
            let (x, y, t) = patch_state(k, lx, ly, it, self.nt);
            if x >= 0 && x < self.side && y >= 0 && y < self.side {
                let i: usize = self.index(x, y, t);
                if self.states[i].free {
                    let ghost was = out@;
                    out.push(i);
                    assert(out@.map_values(f) =~= was.map_values(f).push(i as int));
                }
            }
            k += 1;
        }
        out
    }

    /// The value of a patch.
    pub fn patch_max(&self, lx: i32, ly: i32, it: i32, agg: PatchAgg) -> (r: u64)
        requires
            self.wf(),
            i32::MIN < lx < i32::MAX,
            i32::MIN < ly < i32::MAX,
            0 <= it < self.nt,
        ensures
            r == patch_value(
                self.grid(),
                self.states@,
                lx as int,
                ly as int,
                it as int,
                agg,
            ),
    {
        if agg == PatchAgg::Center {
            if lx < 0 || lx >= self.side || ly < 0 || ly >= self.side {
                return MAX_COST;
            }
            let i: usize = self.index(lx, ly, it);
            let s: State = self.states[i];
            return if s.free {
                clamp_unreached(s.total_cost)
            } else {
                MAX_COST
            };
        }
        let list: Vec<usize> = self.patch_local(lx, ly, it);
        let ghost l = patch_of(self.grid(), self.states@, lx as int, ly as int, it as int);
        let ghost s = self.states@;
        proof {
            lemma_patch_list_len(self.grid(), s, lx as int, ly as int, it as int, PATCH_LEN as int);
        }
        let n: usize = list.len();
        let mut mx: u64 = 0;
        let mut sum: u64 = 0;
        let mut cnt: u64 = 0;
        let mut k: usize = 0;
        assert(l.len() == list@.len());
        while k < n
            invariant
                k <= n <= 27,
                n == list@.len(),
                self.wf(),
                s == self.states@,
                forall|j: int| 0 <= j < list@.len() ==> (#[trigger] list@[j]) < s.len(),
                l.len() == n,
                forall|j: int| 0 <= j < n ==> l[j] == #[trigger] list@[j],
                mx == list_max(s, l, k as int),
                sum == list_sum(s, l, k as int),
                cnt == list_count(s, l, k as int),
                cnt <= k,
                sum <= k * MAX_COST,
            decreases n - k,
        {
            let v: u64 = clamp_unreached(self.states[list[k]].total_cost);
            assert(l[k as int] == list@[k as int]);
            if v >= mx {
                mx = v;
            }
            if v < MAX_COST {
                sum += v;
                cnt += 1;
            }
            k += 1;
        }
        match agg {
            PatchAgg::Mean => {
                if cnt > 0 {
                    sum / cnt
                } else {
                    MAX_COST
                }
            },
            _ => {
                if n == 0 {
                    MAX_COST
                } else {
                    mx
                }
            },
        }
    }
}

proof fn lemma_patch_list_len(g: Grid, s: Seq<State>, cx: int, cy: int, ct: int, n: int)
    requires
        0 <= n,
    ensures
        patch_list(g, s, cx, cy, ct, n).len() <= n,
    decreases n,
{
    if n > 0 {
        lemma_patch_list_len(g, s, cx, cy, ct, n - 1);
    }
}

/// A patch holds exactly the states at most one column, one row and one heading from its
/// centre, headings counted round the circle.
pub proof fn law_patch_is_the_surroundings(
    cx: int,
    cy: int,
    ct: int,
    nt: int,
    x: int,
    y: int,
    t: int,
)
    requires
        0 <= ct < nt,
        0 <= t < nt,
    ensures
        in_patch(PATCH_LEN as int, cx, cy, ct, nt, x, y, t) <==> -1 <= x - cx <= 1 && -1 <= y - cy
            <= 1 && (-1 <= t - ct <= 1 || t - ct >= nt - 1 || ct - t >= nt - 1),
{
    if in_patch(PATCH_LEN as int, cx, cy, ct, nt, x, y, t) {
        let k = choose|k: int|
            0 <= k < PATCH_LEN && #[trigger] is_patch_state(k, cx, cy, ct, nt, x, y, t);
        lemma_offsets(k);
        lemma_turned_by(ct, off_t(k), nt);
    }
    if -1 <= x - cx <= 1 && -1 <= y - cy <= 1 && (-1 <= t - ct <= 1 || t - ct >= nt - 1 || ct - t
        >= nt - 1) {
        let d = if -1 <= t - ct <= 1 {
            t - ct
        } else if t > ct {
            -1
        } else {
            1
        };
        lemma_turned_by(ct, d, nt);
        let k = lemma_offset_number(x - cx, y - cy, d);
        assert(is_patch_state(k, cx, cy, ct, nt, x, y, t));
    }
}

proof fn lemma_offsets(k: int)
    requires
        0 <= k < 27,
    ensures
        -1 <= off_x(k) <= 1,
        -1 <= off_y(k) <= 1,
        -1 <= off_t(k) <= 1,
{
}

proof fn lemma_offset_number(dx: int, dy: int, dt: int) -> (k: int)
    requires
        -1 <= dx <= 1,
        -1 <= dy <= 1,
        -1 <= dt <= 1,
    ensures
        0 <= k < 27,
        off_x(k) == dx,
        off_y(k) == dy,
        off_t(k) == dt,
{
    let k = 9 * (dy + 1) + 3 * (dx + 1) + (dt + 1);
    assert(k / 9 == dy + 1);
    assert(k / 3 == 3 * (dy + 1) + (dx + 1));
    assert((3 * (dy + 1) + (dx + 1)) % 3 == dx + 1);
    assert(k % 3 == dt + 1);
    k
}

/// The heading one step on or back, or the same.
proof fn lemma_turned_by(ct: int, d: int, nt: int)
    requires
        0 <= ct < nt,
        -1 <= d <= 1,
    ensures
        (ct + d) % nt == if ct + d < 0 {
            nt - 1
        } else if ct + d >= nt {
            0
        } else {
            ct + d
        },
{
    let v = ct + d;
    if v < 0 {
        vstd::arithmetic::div_mod::lemma_fundamental_div_mod_converse(v, nt, -1, nt - 1);
    } else if v >= nt {
        vstd::arithmetic::div_mod::lemma_fundamental_div_mod_converse(v, nt, 1, v - nt);
    } else {
        vstd::arithmetic::div_mod::lemma_small_mod(v as nat, nt as nat);
    }
}

/// Pinning a patch makes its free states goals that cost at most the given cost, and leaves
/// every state that is not free or not in the patch.
pub proof fn law_pinned_patch_is_free_states(
    s: Seq<State>,
    cx: int,
    cy: int,
    ct: int,
    nt: int,
    cost: u64,
    i: int,
)
    requires
        0 <= ct < nt,
        0 <= i < s.len(),
        0 <= s[i].it < nt,
    ensures
        ({
            let old = s[i];
            let new = with_patch(s, PATCH_LEN as int, cx, cy, ct, nt, cost)[i];
            let d = old.it - ct;
            let here = -1 <= old.ix - cx <= 1 && -1 <= old.iy - cy <= 1 && (-1 <= d <= 1 || d >= nt
                - 1 || -d >= nt - 1);
            &&& !here || !old.free ==> new == old
            &&& here && old.free ==> {
                &&& new.final_state
                &&& new.total_cost <= cost
                &&& !old.final_state ==> new.total_cost == cost && new.optimal_action is None
                &&& old.final_state ==> new.total_cost <= old.total_cost && (new.total_cost
                    == old.total_cost || new.total_cost == cost)
                &&& new == (State {
                    final_state: true,
                    total_cost: new.total_cost,
                    optimal_action: new.optimal_action,
                    ..old
                })
            }
        }),
{
    law_patch_is_the_surroundings(
        cx,
        cy,
        ct,
        nt,
        s[i].ix as int,
        s[i].iy as int,
        s[i].it as int,
    );
}

/// The greatest of the listed values is one of them and above all; as many count as are
/// reached, and their sum is at most that many times the greatest. Values that count as
/// unreached are read as the largest cost.
pub proof fn law_list_values(s: Seq<State>, list: Seq<int>, n: int)
    requires
        0 <= n <= list.len(),
    ensures
        forall|k: int|
            0 <= k < n ==> clamped(s[#[trigger] list[k]].total_cost) <= list_max(s, list, n),
        n > 0 ==> exists|k: int|
            0 <= k < n && clamped(s[#[trigger] list[k]].total_cost) == list_max(s, list, n),
        0 <= list_count(s, list, n) <= n,
        list_count(s, list, n) == 0 <==> forall|k: int|
            0 <= k < n ==> clamped(s[#[trigger] list[k]].total_cost) >= MAX_COST,
        0 <= list_sum(s, list, n) <= list_count(s, list, n) * list_max(s, list, n),
    decreases n,
{
    if n > 0 {
        law_list_values(s, list, n - 1);
        let v = clamped(s[list[n - 1]].total_cost);
        let m = list_max(s, list, n);
        if v != m {
            let k = choose|k: int|
                0 <= k < n - 1 && clamped(s[#[trigger] list[k]].total_cost) == list_max(
                    s,
                    list,
                    n - 1,
                );
            assert(clamped(s[list[k]].total_cost) == m);
        } else {
            assert(clamped(s[list[n - 1]].total_cost) == m);
        }
        if list_count(s, list, n) == 0 {
            assert(clamped(s[list[n - 1]].total_cost) >= MAX_COST);
        }
        let (c, p) = (list_count(s, list, n - 1), list_max(s, list, n - 1) as int);
        let w = m as int;
        assert(c * p <= c * w && (c + 1) * w == c * w + w) by (nonlinear_arith)
            requires
                p <= w,
                0 <= c,
        ;
    }
}

/// Every state that is listed for a patch is a free one of the map in the patch.
pub proof fn law_patch_lists_free_states(
    g: Grid,
    s: Seq<State>,
    cx: int,
    cy: int,
    ct: int,
    n: int,
    i: int,
)
    requires
        0 <= ct < g.nt,
        0 <= n <= PATCH_LEN,
        0 <= i < patch_list(g, s, cx, cy, ct, n).len(),
    ensures
        exists|x: int, y: int, t: int|
            patch_list(g, s, cx, cy, ct, n)[i] == #[trigger] g.at(x, y, t) && on_axis(x, g.nx)
                && on_axis(y, g.ny) && on_axis(t, g.nt) && s[g.at(x, y, t)].free && -1 <= x - cx
                <= 1 && -1 <= y - cy <= 1 && (-1 <= t - ct <= 1 || t - ct >= g.nt - 1 || ct - t
                >= g.nt - 1),
    decreases n,
{
    let p = patch_list(g, s, cx, cy, ct, n - 1);
    if i < p.len() {
        law_patch_lists_free_states(g, s, cx, cy, ct, n - 1, i);
        assert(patch_list(g, s, cx, cy, ct, n)[i] == p[i]);
    } else {
        let k = n - 1;
        let (x, y, t) = (cx + off_x(k), cy + off_y(k), patch_t(ct, k, g.nt));
        vstd::arithmetic::div_mod::lemma_mod_bound(ct + off_t(k), g.nt);
        assert(is_patch_state(k, cx, cy, ct, g.nt, x, y, t));
        assert(in_patch(PATCH_LEN as int, cx, cy, ct, g.nt, x, y, t));
        law_patch_is_the_surroundings(cx, cy, ct, g.nt, x, y, t);
        assert(patch_list(g, s, cx, cy, ct, n)[i] == g.at(x, y, t));
    }
}

/// Every free state of the map in a patch is listed.
pub proof fn law_patch_lists_all(
    g: Grid,
    s: Seq<State>,
    cx: int,
    cy: int,
    ct: int,
    x: int,
    y: int,
    t: int,
)
    requires
        0 <= ct < g.nt,
        on_axis(x, g.nx),
        on_axis(y, g.ny),
        on_axis(t, g.nt),
        s[g.at(x, y, t)].free,
        -1 <= x - cx <= 1,
        -1 <= y - cy <= 1,
        -1 <= t - ct <= 1 || t - ct >= g.nt - 1 || ct - t >= g.nt - 1,
    ensures
        patch_of(g, s, cx, cy, ct).contains(g.at(x, y, t)),
{
    law_patch_is_the_surroundings(cx, cy, ct, g.nt, x, y, t);
    let k = choose|k: int|
        0 <= k < PATCH_LEN && #[trigger] is_patch_state(k, cx, cy, ct, g.nt, x, y, t);
    lemma_listed(g, s, cx, cy, ct, PATCH_LEN as int, k);
}

proof fn lemma_listed(g: Grid, s: Seq<State>, cx: int, cy: int, ct: int, n: int, k: int)
    requires
        0 <= k < n,
        patch_hit(g, s, cx, cy, ct, k),
    ensures
        patch_list(g, s, cx, cy, ct, n).contains(
            g.at(cx + off_x(k), cy + off_y(k), patch_t(ct, k, g.nt)),
        ),
    decreases n,
{
    let (p, q) = (patch_list(g, s, cx, cy, ct, n - 1), patch_list(g, s, cx, cy, ct, n));
    let v = g.at(cx + off_x(k), cy + off_y(k), patch_t(ct, k, g.nt));
    if k < n - 1 {
        lemma_listed(g, s, cx, cy, ct, n - 1, k);
        let i = choose|i: int| 0 <= i < p.len() && p[i] == v;
        assert(q[i] == v);
    } else {
        assert(q[p.len() as int] == v);
    }
}

/// The value of a patch is the greatest of its free states' values, that of its centre, or
/// the mean of the reached ones rounded down; without such states it is the largest cost.
pub proof fn law_patch_value_is_of_its_states(g: Grid, s: Seq<State>, cx: int, cy: int, ct: int)
    ensures
        ({
            let list = patch_of(g, s, cx, cy, ct);
            let n = list.len() as int;
            let top = patch_value(g, s, cx, cy, ct, PatchAgg::Max);
            let mean = patch_value(g, s, cx, cy, ct, PatchAgg::Mean);
            let count = list_count(s, list, n);
            &&& n == 0 ==> top == MAX_COST && mean == MAX_COST
            &&& forall|k: int| 0 <= k < n ==> clamped(s[#[trigger] list[k]].total_cost) <= top
            &&& n > 0 ==> exists|k: int|
                0 <= k < n && clamped(s[#[trigger] list[k]].total_cost) == top
            &&& count == 0 ==> mean == MAX_COST
            &&& count > 0 ==> mean <= top && mean * count <= list_sum(s, list, n) < (mean + 1)
                * count
        }),
{
    let list = patch_of(g, s, cx, cy, ct);
    let n = list.len() as int;
    law_list_values(s, list, n);
    let (v, c, m) = (list_sum(s, list, n), list_count(s, list, n), list_max(s, list, n) as int);
    if c > 0 {
        vstd::arithmetic::div_mod::lemma_fundamental_div_mod(v, c);
        vstd::arithmetic::div_mod::lemma_mod_bound(v, c);
        let q = v / c;
        assert(0 <= q <= m && q * c <= v < (q + 1) * c) by (nonlinear_arith)
            requires
                v == c * q + v % c,
                0 <= v % c,
                v % c < c,
                0 <= v <= c * m,
                0 < c,
        ;
    }
}

} // verus!
