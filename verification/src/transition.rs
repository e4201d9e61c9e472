//! From the movement of an action to its outcomes: where the robot ends up from
//! everywhere in a cell and a heading bin, sampled evenly.
//!
//! Lengths are in nanometres and angles in millionths of a degree.
use vstd::prelude::*;

use crate::action::StateTransition;
use crate::bounds::mass;
use crate::chamfer::abs;
use crate::params::PROB_BASE;

verus! {

/// A full turn.
pub const TURN: i64 = 360_000_000;

/// One, in the format of sines and cosines.
pub const UNIT: i64 = 1_000_000_000;

/// Samples along each axis of a cell and along a heading bin.
pub const SAMPLES: i64 = 64;

/// All samples.
pub const ALL_SAMPLES: i64 = 262_144;

/// The cell that a coordinate lies in: below zero cells count down from -1.
pub open spec fn cell_of(x: int, res: int) -> int {
    if x < 0 {
        -(-x / res) - 1
    } else {
        x / res
    }
}

fn cell_index(x: i64, res: i64) -> (r: i32)
    requires
        0 < res,
        i64::MIN < x,
        abs(x as int) / (res as int) < i32::MAX,
    ensures
        r == cell_of(x as int, res as int),
        r * res <= x <= (r + 1) * res,
{
    proof {
        law_cell_holds_coordinate(x as int, res as int, 0);
    }
    if x < 0 {
        let q: i64 = (-x) / res;
        proof {
            vstd::arithmetic::div_mod::lemma_div_pos_is_pos(-x as int, res as int);
        }
        -(q as i32) - 1
    } else {
        proof {
            vstd::arithmetic::div_mod::lemma_div_pos_is_pos(x as int, res as int);
        }
        (x / res) as i32
    }
}

/// The cells that a movement leads to, and the heading bin that it ends in. The bin counts
/// from zero degrees and does not go round.
pub fn cell_delta(x: i64, y: i64, t: i64, xy_res: i64, t_res: i64) -> (r: (i32, i32, i32))
    requires
        0 < xy_res,
        0 < t_res,
        i64::MIN < x,
        i64::MIN < y,
        0 <= t,
        abs(x as int) / (xy_res as int) < i32::MAX,
        abs(y as int) / (xy_res as int) < i32::MAX,
        t as int / t_res as int <= i32::MAX,
    ensures
        r.0 == cell_of(x as int, xy_res as int),
        r.1 == cell_of(y as int, xy_res as int),
        r.2 == t as int / t_res as int,
        r.0 * xy_res <= x <= (r.0 + 1) * xy_res,
        r.1 * xy_res <= y <= (r.1 + 1) * xy_res,
        r.2 * t_res <= t < (r.2 + 1) * t_res,
{
    proof {
        vstd::arithmetic::div_mod::lemma_div_pos_is_pos(t as int, t_res as int);
        law_cell_holds_coordinate(t as int, t_res as int, 0);
    }
    (cell_index(x, xy_res), cell_index(y, xy_res), (t / t_res) as i32)
}

/// `len` times a sine or cosine, to the nearest nanometre.
pub open spec fn scaled(len: int, factor: int) -> int {
    (len * factor + UNIT / 2) / (UNIT as int)
}

/// A heading after a turn, raised by a full turn if it is below zero; headings of a full
/// turn and more stay.
pub open spec fn turned(from: int, by: int) -> int {
    if from + by < 0 {
        from + by + TURN
    } else {
        from + by
    }
}

fn scale(len: i64, factor: i64) -> (r: i128)
    requires
        -UNIT <= factor <= UNIT,
    ensures
        r == scaled(len as int, factor as int),
        -0x8000_0000_0000_0000 - 1 <= r <= 0x7fff_ffff_ffff_ffff + 1,
{
    let u: i128 = UNIT as i128;
    proof {
        let (l, f) = (len as int, factor as int);
        assert(-0x8000_0000_0000_0000 * 1_000_000_000 <= l * f <= 0x8000_0000_0000_0000
            * 1_000_000_000) by (nonlinear_arith)
            requires
                -0x8000_0000_0000_0000 <= l <= 0x7fff_ffff_ffff_ffff,
                -1_000_000_000 <= f <= 1_000_000_000,
        ;
    }
    let p: i128 = len as i128 * factor as i128 + u / 2;
    let q: i128 = floor_div(p, u);
    q
}

pub fn floor_div(a: i128, b: i128) -> (r: i128)
    requires
        0 < b,
        -0x4000_0000_0000_0000_0000_0000_0000_0000 <= a,
        a <= 0x4000_0000_0000_0000_0000_0000_0000_0000,
        b <= 0x4000_0000_0000_0000_0000_0000_0000_0000,
    ensures
        r == a as int / b as int,
{
    if a >= 0 {
        a / b
    } else {
        let m: i128 = -a;
        let q: i128 = (m + (b - 1)) / b;
        proof {
            let n = m + b - 1;
            vstd::arithmetic::div_mod::lemma_fundamental_div_mod(n as int, b as int);
            vstd::arithmetic::div_mod::lemma_mod_bound(n as int, b as int);
            let k = n as int % b as int;
            assert(a == b * (-q) + (b - 1 - k)) by (nonlinear_arith)
                requires
                    -a + b - 1 == b * q + k,
            ;
            vstd::arithmetic::div_mod::lemma_fundamental_div_mod_converse(
                a as int,
                b as int,
                -q as int,
                b - 1 - k,
            );
            vstd::arithmetic::div_mod::lemma_div_pos_is_pos(n as int, b as int);
        }
        -q
    }
}

/// Where a robot at `(from_x, from_y)` with heading `from_t` ends up without noise: it
/// drives `fw` and then turns by `rot`. The sine and cosine of its heading are given.
pub fn no_noise_state_transition(
    fw: i64,
    rot: i64,
    from_x: i64,
    from_y: i64,
    from_t: i64,
    cos: i64,
    sin: i64,
) -> (r: (i64, i64, i64))
    requires
        -UNIT <= cos <= UNIT,
        -UNIT <= sin <= UNIT,
        i64::MIN <= from_x + scaled(fw as int, cos as int) <= i64::MAX,
        i64::MIN <= from_y + scaled(fw as int, sin as int) <= i64::MAX,
        i64::MIN <= from_t + rot <= i64::MAX,
    ensures
        r.0 == from_x + scaled(fw as int, cos as int),
        r.1 == from_y + scaled(fw as int, sin as int),
        r.2 == turned(from_t as int, rot as int),
        -UNIT <= 2 * (UNIT * (r.0 - from_x) - fw * cos) <= UNIT,
        -UNIT <= 2 * (UNIT * (r.1 - from_y) - fw * sin) <= UNIT,
        r.2 - from_t - rot == 0 || r.2 - from_t - rot == TURN,
{
    proof {
        law_scaled_is_nearest(fw as int, cos as int);
        law_scaled_is_nearest(fw as int, sin as int);
    }
    let x: i128 = from_x as i128 + scale(fw, cos);
    let y: i128 = from_y as i128 + scale(fw, sin);
    let t: i64 = from_t + rot;
    let t1: i64 = if t < 0 {
        t + TURN
    } else {
        t
    };
    (x as i64, y as i64, t1)
}

/// A movement whose outcomes are sought: for each sampled heading of a bin how far it
/// leads, and by how much it turns.
pub struct Motion {
    /// For every sampled heading, how far the robot gets along both axes.
    pub moves: Vec<(i64, i64)>,
    pub rot: i64,
    /// The heading bin that the robot starts in.
    pub it: i32,
    pub xy_res: i64,
    pub t_res: i64,
}

/// No number gets too large.
pub const SPAN: i64 = 0xff_ffff_ffff;

impl Motion {
    /// The movement is of a size that can be computed with, and no turn leads below zero
    /// by more than a full turn.
    pub open spec fn wf(self) -> bool {
        &&& self.moves@.len() == SAMPLES
        &&& 0 < self.xy_res <= SPAN
        &&& 0 < self.t_res <= TURN
        &&& 0 <= self.it <= 0xffff
        &&& -TURN <= self.rot <= TURN
        &&& forall|k: int|
            0 <= k < SAMPLES ==> -SPAN <= (#[trigger] self.moves@[k]).0 <= SPAN && -SPAN
                <= self.moves@[k].1 <= SPAN && abs(self.moves@[k].0 as int) / (self.xy_res as int)
                < i32::MAX - 2 && abs(self.moves@[k].1 as int) / (self.xy_res as int) < i32::MAX
                - 2
    }

    /// Where sample `i` of an axis ends, in parts of 128 of a nanometre, when it is moved
    /// by `d`.
    pub open spec fn spot(self, i: int, d: int) -> int {
        (2 * i + 1) * self.xy_res + 128 * d
    }

    /// The heading in which heading sample `k` ends, in parts of 128 of a millionth degree.
    pub open spec fn heading(self, k: int) -> int {
        let t = (128 * self.it + 2 * k + 1) * self.t_res + 128 * self.rot;
        if t < 0 {
            t + 128 * TURN
        } else {
            t
        }
    }

    /// The outcome of sample number `n`.
    pub open spec fn outcome(self, n: int) -> (int, int, int) {
        let (y, x, k) = (n / 4096, (n / 64) % 64, n % 64);
        (
            cell_of(self.spot(x, self.moves@[k].0 as int), 128 * self.xy_res),
            cell_of(self.spot(y, self.moves@[k].1 as int), 128 * self.xy_res),
            self.heading(k) / (128 * self.t_res),
        )
    }
}

/// `tr` is the outcome `o`.
pub open spec fn is_outcome(tr: StateTransition, o: (int, int, int)) -> bool {
    tr.dix == o.0 && tr.diy == o.1 && tr.dit == o.2
}

/// `a` and `b` are the same outcome.
pub open spec fn same_outcome(a: StateTransition, b: StateTransition) -> bool {
    a.dix == b.dix && a.diy == b.diy && a.dit == b.dit
}

/// The first of the first `n` listed outcomes that is `o`, or `n`.
pub open spec fn find(list: Seq<StateTransition>, o: (int, int, int), n: int) -> int
    decreases n,
{
    if n <= 0 {
        0
    } else {
        let f = find(list, o, n - 1);
        if f < n - 1 || is_outcome(list[n - 1], o) {
            f
        } else {
            n
        }
    }
}

/// One more sample with outcome `o`.
pub open spec fn counted(list: Seq<StateTransition>, o: (int, int, int)) -> Seq<StateTransition> {
    let f = find(list, o, list.len() as int);
    if f < list.len() {
        list.update(f, StateTransition { prob: (list[f].prob + 1) as i32, ..list[f] })
    } else {
        list.push(
            StateTransition { dix: o.0 as i32, diy: o.1 as i32, dit: o.2 as i32, prob: 1 },
        )
    }
}

/// The outcomes of the first `n` samples, each with how many samples have it.
pub open spec fn tally(m: Motion, n: int) -> Seq<StateTransition>
    decreases n,
{
    if n <= 0 {
        Seq::empty()
    } else {
        counted(tally(m, n - 1), m.outcome(n - 1))
    }
}

proof fn lemma_find(list: Seq<StateTransition>, o: (int, int, int), n: int)
    requires
        0 <= n,
    ensures
        0 <= find(list, o, n) <= n,
        forall|i: int| 0 <= i < find(list, o, n) ==> !is_outcome(#[trigger] list[i], o),
        find(list, o, n) < n ==> is_outcome(list[find(list, o, n)], o),
    decreases n,
{
    if n > 0 {
        lemma_find(list, o, n - 1);
    }
}

proof fn lemma_find_at(list: Seq<StateTransition>, o: (int, int, int), f: int, n: int)
    requires
        0 <= f < n,
        find(list, o, f) == f,
        is_outcome(list[f], o),
    ensures
        find(list, o, n) == f,
    decreases n,
{
    if f < n - 1 {
        lemma_find_at(list, o, f, n - 1);
    }
}

proof fn lemma_samples_update(list: Seq<StateTransition>, f: int, v: StateTransition, n: int)
    requires
        0 <= f < list.len(),
        0 <= n <= list.len(),
    ensures
        mass(list.update(f, v), n) == mass(list, n) + if f < n {
            v.prob - list[f].prob
        } else {
            0
        },
    decreases n,
{
    if n > 0 {
        lemma_samples_update(list, f, v, n - 1);
    }
}

proof fn lemma_samples_prefix(a: Seq<StateTransition>, b: Seq<StateTransition>, n: int)
    requires
        0 <= n <= a.len(),
        n <= b.len(),
        forall|i: int| 0 <= i < n ==> #[trigger] a[i] == b[i],
    ensures
        mass(a, n) == mass(b, n),
    decreases n,
{
    if n > 0 {
        lemma_samples_prefix(a, b, n - 1);
    }
}

proof fn lemma_samples_bound(list: Seq<StateTransition>, i: int, n: int)
    requires
        0 <= i < n <= list.len(),
        forall|k: int| 0 <= k < list.len() ==> 1 <= (#[trigger] list[k]).prob,
    ensures
        list[i].prob <= mass(list, n),
        n <= mass(list, n),
    decreases n,
{
    assert(1 <= list[n - 1].prob && 1 <= list[0].prob);
    assert(mass(list, 0) == 0);
    if n > 1 {
        if i < n - 1 {
            lemma_samples_bound(list, i, n - 1);
        } else {
            lemma_samples_bound(list, 0, n - 1);
        }
    }
}

/// Every sample is counted once: the counts of `n` samples add up to `n`, and no outcome
/// is listed twice or without a sample.
pub proof fn law_samples_add_up(m: Motion, n: int)
    requires
        m.wf(),
        0 <= n <= ALL_SAMPLES,
    ensures
        mass(tally(m, n), tally(m, n).len() as int) == n,
        forall|i: int| 0 <= i < tally(m, n).len() ==> 1 <= (#[trigger] tally(m, n)[i]).prob,
        forall|i: int, j: int|
            0 <= i < j < tally(m, n).len() ==> !same_outcome(
                #[trigger] tally(m, n)[i],
                #[trigger] tally(m, n)[j],
            ),
    decreases n,
{
    if n > 0 {
        law_samples_add_up(m, n - 1);
        lemma_outcome_fits(m, n - 1);
        let l = tally(m, n - 1);
        let o = m.outcome(n - 1);
        let len = l.len() as int;
        let f = find(l, o, len);
        lemma_find(l, o, len);
        if f < len {
            lemma_samples_bound(l, f, len);
            let v = StateTransition { prob: (l[f].prob + 1) as i32, ..l[f] };
            lemma_samples_update(l, f, v, len);
            let t = tally(m, n);
            assert forall|i: int, j: int| 0 <= i < j < t.len() implies !same_outcome(
                #[trigger] t[i],
                #[trigger] t[j],
            ) by {
                assert(!same_outcome(l[i], l[j]));
            }
        } else {
            lemma_samples_prefix(l, tally(m, n), len);
            let t = tally(m, n);
            assert forall|i: int, j: int| 0 <= i < j < t.len() implies !same_outcome(
                #[trigger] t[i],
                #[trigger] t[j],
            ) by {
                assert(t[i] == l[i]);
                if j < len {
                    assert(!same_outcome(l[i], l[j]));
                } else {
                    assert(!is_outcome(l[i], o));
                }
            }
        }
    }
}

/// The cell that a sample ends in has a number that fits.
proof fn lemma_coordinate(i: int, res: int, d: int)
    requires
        0 <= i < SAMPLES,
        0 < res <= SPAN,
        -SPAN <= d <= SPAN,
        abs(d) / res < i32::MAX - 2,
    ensures
        0 <= (2 * i + 1) * res <= 127 * SPAN,
        abs((2 * i + 1) * res + 128 * d) / (128 * res) < i32::MAX,
        i32::MIN <= cell_of((2 * i + 1) * res + 128 * d, 128 * res) <= i32::MAX,
{
    assert(0 <= (2 * i + 1) * res <= 127 * 0xff_ffff_ffff) by (nonlinear_arith)
        requires
            0 <= i <= 63,
            0 < res <= 0xff_ffff_ffff,
    ;
    let x = (2 * i + 1) * res + 128 * d;
    let w = 128 * res;
    let (a, q) = (abs(d), abs(d) / res);
    vstd::arithmetic::div_mod::lemma_fundamental_div_mod(a, res);
    vstd::arithmetic::div_mod::lemma_mod_bound(a, res);
    vstd::arithmetic::div_mod::lemma_fundamental_div_mod(abs(x), w);
    vstd::arithmetic::div_mod::lemma_mod_bound(abs(x), w);
    let p = abs(x) / w;
    assert((2 * i + 1) * res <= 127 * res) by (nonlinear_arith)
        requires
            2 * i + 1 <= 127,
            0 < res,
    ;
    assert(abs(x) < 128 * res * (q + 2)) by (nonlinear_arith)
        requires
            abs(x) <= 127 * res + 128 * a,
            a == res * q + a % res,
            0 <= a % res,
            a % res < res,
            0 < res,
    ;
    assert(p < q + 2) by (nonlinear_arith)
        requires
            abs(x) == w * p + abs(x) % w,
            0 <= abs(x) % w,
            abs(x) < w * (q + 2),
            0 < w,
            w == 128 * res,
    ;
    vstd::arithmetic::div_mod::lemma_div_pos_is_pos(abs(x), w);
}

fn coordinate(i: i64, res: i64, d: i64) -> (r: i32)
    requires
        0 <= i < SAMPLES,
        0 < res <= SPAN,
        -SPAN <= d <= SPAN,
        abs(d as int) / (res as int) < i32::MAX - 2,
    ensures
        r == cell_of((2 * i + 1) * res + 128 * d, 128 * res),
{
    proof {
        lemma_coordinate(i as int, res as int, d as int);
    }
    let x: i64 = (2 * i + 1) * res + 128 * d;
    cell_index(x, 128 * res)
}

/// The heading bin that a sample ends in has a number that fits.
proof fn lemma_heading(m: Motion, k: int)
    requires
        m.wf(),
        0 <= k < SAMPLES,
    ensures
        0 <= (128 * m.it + 2 * k + 1) * m.t_res <= (128 * 0xffff + 127) * TURN,
        0 <= m.heading(k),
        0 <= m.heading(k) / (128 * m.t_res) <= i32::MAX,
{
    let j = 128 * m.it + 2 * k + 1;
    let res = m.t_res as int;
    assert(0 <= j * res <= (128 * 0xffff + 127) * 360_000_000) by (nonlinear_arith)
        requires
            0 <= j <= 128 * 0xffff + 127,
            0 < res <= 360_000_000,
    ;
    let t = m.heading(k);
    let w = 128 * res;
    vstd::arithmetic::div_mod::lemma_fundamental_div_mod(t, w);
    vstd::arithmetic::div_mod::lemma_mod_bound(t, w);
    let q = t / w;
    assert(0 <= q) by (nonlinear_arith)
        requires
            t == w * q + t % w,
            0 <= t,
            t % w < w,
            0 < w,
    ;
    assert(q <= 0xffff + 1 + 360_000_000) by (nonlinear_arith)
        requires
            w == 128 * res,
            0 < res,
            t <= j * res + 128 * 360_000_000,
            j <= 128 * 0xffff + 127,
            t == w * q + t % w,
            0 <= t % w,
    ;
}

fn end_heading(m: &Motion, k: i64) -> (r: i32)
    requires
        m.wf(),
        0 <= k < SAMPLES,
    ensures
        r == m.heading(k as int) / (128 * m.t_res),
{
    proof {
        lemma_heading(*m, k as int);
    }
    let raw: i64 = (128 * m.it as i64 + 2 * k + 1) * m.t_res + 128 * m.rot;
    let t: i64 = if raw < 0 {
        raw + 128 * TURN
    } else {
        raw
    };
    (t / (128 * m.t_res)) as i32
}

/// The numbers of an outcome fit.
proof fn lemma_outcome_fits(m: Motion, n: int)
    requires
        m.wf(),
        0 <= n < ALL_SAMPLES,
    ensures
        i32::MIN <= m.outcome(n).0 <= i32::MAX,
        i32::MIN <= m.outcome(n).1 <= i32::MAX,
        0 <= m.outcome(n).2 <= i32::MAX,
{
    let (y, x, k) = (n / 4096, (n / 64) % 64, n % 64);
    assert(-SPAN <= m.moves@[k].0 <= SPAN);
    lemma_coordinate(x, m.xy_res as int, m.moves@[k].0 as int);
    lemma_coordinate(y, m.xy_res as int, m.moves@[k].1 as int);
    lemma_heading(m, k);
}

/// The outcomes of a movement from one heading bin: one sample from the middle of each
/// part of the cell and of the bin.
pub fn compute_theta_transitions(m: &Motion) -> (r: Vec<StateTransition>)
    requires
        m.wf(),
    ensures
        r@ == tally(*m, ALL_SAMPLES as int),
        mass(r@, r@.len() as int) == PROB_BASE,
{
    let mut list: Vec<StateTransition> = Vec::new();
    let mut n: i64 = 0;
    while n < ALL_SAMPLES
        invariant
            m.wf(),
            0 <= n <= ALL_SAMPLES,
            list@ == tally(*m, n as int),
        decreases ALL_SAMPLES - n,
    {
        let y: i64 = n / 4096;
        let x: i64 = (n / 64) % 64;
        let k: i64 = n % 64;
        let (mx, my) = m.moves[k as usize];
        let dix: i32 = coordinate(x, m.xy_res, mx);
        let diy: i32 = coordinate(y, m.xy_res, my);
        let dit: i32 = end_heading(m, k);
        let ghost o = m.outcome(n as int);
        assert(o == (dix as int, diy as int, dit as int));
        let ghost l = list@;
        let mut f: usize = 0;
        let mut going: bool = true;
        while f < list.len() && going
            invariant
                l == list@,
                o == (dix as int, diy as int, dit as int),
                f <= l.len(),
                going ==> find(l, o, f as int) == f,
                !going ==> f < l.len() && find(l, o, l.len() as int) == f,
            decreases list.len() - f + if going {
                1int
            } else {
                0int
            },
        {
            let tr: StateTransition = list[f];
            if tr.dix == dix && tr.diy == diy && tr.dit == dit {
                going = false;
                proof {
                    lemma_find_at(l, o, f as int, l.len() as int);
                }
            } else {
                f += 1;
            }
        }
        proof {
            law_samples_add_up(*m, n as int);
            if f < l.len() {
                lemma_samples_bound(l, f as int, l.len() as int);
            }
        }
        if f < list.len() {
            let mut tr: StateTransition = list[f];
            tr.count_up();
            list.set(f, tr);
        } else {
            list.push(StateTransition::new(dix, diy, dit, 1));
        }
        assert(list@ =~= counted(l, o));
        n += 1;
    }
    proof {
        law_samples_add_up(*m, ALL_SAMPLES as int);
    }
    list
}

/// A coordinate lies in its cell: between the borders of the cell, where a border belongs to
/// the cell that is farther from zero for coordinates below zero, and to the one that starts
/// there otherwise. No other cell holds it in this way.
pub proof fn law_cell_holds_coordinate(x: int, res: int, c: int)
    requires
        0 < res,
    ensures
        x >= 0 ==> cell_of(x, res) * res <= x < (cell_of(x, res) + 1) * res,
        x < 0 ==> cell_of(x, res) * res < x <= (cell_of(x, res) + 1) * res,
        x >= 0 && c * res <= x < (c + 1) * res ==> c == cell_of(x, res),
        x < 0 && c * res < x <= (c + 1) * res ==> c == cell_of(x, res),
{
    let a = abs(x);
    let q = a / res;
    vstd::arithmetic::div_mod::lemma_fundamental_div_mod(a, res);
    vstd::arithmetic::div_mod::lemma_mod_bound(a, res);
    let e = cell_of(x, res);
    if x >= 0 {
        assert(e * res <= x < (e + 1) * res) by (nonlinear_arith)
            requires
                e == q,
                x == res * q + a % res,
                0 <= a % res,
                a % res < res,
        ;
        assert(c * res <= x < (c + 1) * res ==> c == e) by (nonlinear_arith)
            requires
                e * res <= x < (e + 1) * res,
                0 < res,
        ;
    } else {
        assert(e * res < x <= (e + 1) * res) by (nonlinear_arith)
            requires
                e == -q - 1,
                -x == res * q + a % res,
                0 <= a % res,
                a % res < res,
        ;
        assert(c * res < x <= (c + 1) * res ==> c == e) by (nonlinear_arith)
            requires
                e * res < x <= (e + 1) * res,
                0 < res,
        ;
    }
}

/// One more cell width in the direction of a movement leads exactly one cell on.
pub proof fn law_one_width_is_one_cell(x: int, res: int)
    requires
        0 < res,
    ensures
        x >= 0 ==> cell_of(x + res, res) == cell_of(x, res) + 1,
        x < 0 ==> cell_of(x - res, res) == cell_of(x, res) - 1,
{
    let c = cell_of(x, res);
    law_cell_holds_coordinate(x, res, 0);
    if x >= 0 {
        assert((c + 1) * res == c * res + res && (c + 2) * res == (c + 1) * res + res)
            by (nonlinear_arith);
        law_cell_holds_coordinate(x + res, res, c + 1);
    } else {
        assert((c - 1) * res == c * res - res && (c - 1 + 1) * res == c * res) by (nonlinear_arith);
        assert((c + 1) * res == c * res + res) by (nonlinear_arith);
        law_cell_holds_coordinate(x - res, res, c - 1);
    }
}

/// Cells are numbered in the order of coordinates, and a coordinate and its opposite lie in
/// cells that mirror each other.
pub proof fn law_cells_are_in_order(x: int, y: int, res: int)
    requires
        0 < res,
    ensures
        x <= y ==> cell_of(x, res) <= cell_of(y, res),
        x > 0 ==> cell_of(-x, res) == -cell_of(x, res) - 1,
{
    let (c, d) = (cell_of(x, res), cell_of(y, res));
    law_cell_holds_coordinate(x, res, 0);
    law_cell_holds_coordinate(y, res, 0);
    assert(x <= y && c * res <= x && y <= (d + 1) * res && (c * res < x || y < (d + 1) * res)
        ==> c <= d) by (nonlinear_arith)
        requires
            0 < res,
    ;
    if x > 0 {
        assert((-c - 1) * res == -((c + 1) * res) && (-c) * res == -(c * res)) by (nonlinear_arith);
        law_cell_holds_coordinate(-x, res, -c - 1);
    } else if x < 0 && y >= 0 {
        assert(c < 0 && d >= 0) by (nonlinear_arith)
            requires
                c * res < x,
                x < 0,
                y < (d + 1) * res,
                0 <= y,
                0 < res,
        ;
    }
}

/// A length times a sine or cosine is rounded to the nearest nanometre, halves upwards.
pub proof fn law_scaled_is_nearest(len: int, factor: int)
    ensures
        2 * (scaled(len, factor) * UNIT - len * factor) <= UNIT,
        2 * (len * factor - scaled(len, factor) * UNIT) < UNIT,
        factor == UNIT ==> scaled(len, factor) == len,
        factor == 0 ==> scaled(len, factor) == 0,
        factor == -UNIT ==> scaled(len, factor) == -len,
{
    let u = UNIT as int;
    let p = len * factor + u / 2;
    vstd::arithmetic::div_mod::lemma_fundamental_div_mod(p, u);
    vstd::arithmetic::div_mod::lemma_mod_bound(p, u);
    let q = scaled(len, factor);
    assert(u * q == q * u) by (nonlinear_arith);
    if factor == u {
        assert(q == len) by (nonlinear_arith)
            requires
                2 * (q * u - len * u) <= u,
                2 * (len * u - q * u) < u,
                u == 1_000_000_000,
        ;
    } else if factor == 0 {
        assert(len * 0 == 0);
    } else if factor == -u {
        assert(q == -len) by (nonlinear_arith)
            requires
                2 * (q * u - len * (-u)) <= u,
                2 * (len * (-u) - q * u) < u,
                u == 1_000_000_000,
        ;
    }
}

/// A turn leads to the heading that lies that far on, up to one full turn, and not below zero
/// where the turn is one round at most. The turn back leads back, up to full turns.
pub proof fn law_turned_is_that_far_on(from: int, by: int)
    ensures
        turned(from, by) - from - by == 0 || turned(from, by) - from - by == TURN,
        0 <= from && -TURN <= by ==> 0 <= turned(from, by),
        0 <= from + by ==> turned(from, by) == from + by,
        0 <= from < TURN && -TURN <= by <= TURN ==> (turned(turned(from, by), -by) - from) % (
        TURN as int) == 0,
{
}

/// Sample number `n` starts in the middle of its part of the cell and of the heading bin, and
/// its outcome is the cell that it ends in, along each axis, and the heading bin that it ends
/// in. All numbers are 128 times as large, because a part has 128 halves.
pub proof fn law_sample_ends_in_its_outcome(m: Motion, n: int)
    requires
        m.wf(),
        0 <= n < ALL_SAMPLES,
    ensures
        ({
            let (part_y, part_x, part_t) = (n / 4096, (n / 64) % 64, n % 64);
            let (cell, bin) = (128 * m.xy_res, 128 * m.t_res);
            let x = (2 * part_x + 1) * m.xy_res + 128 * m.moves@[part_t].0;
            let y = (2 * part_y + 1) * m.xy_res + 128 * m.moves@[part_t].1;
            let t = (128 * m.it + 2 * part_t + 1) * m.t_res + 128 * m.rot;
            let (cx, cy, b) = m.outcome(n);
            &&& cx * cell <= x <= (cx + 1) * cell
            &&& cy * cell <= y <= (cy + 1) * cell
            &&& x >= 0 ==> x < (cx + 1) * cell
            &&& x < 0 ==> cx * cell < x
            &&& y >= 0 ==> y < (cy + 1) * cell
            &&& y < 0 ==> cy * cell < y
            &&& t >= 0 ==> b * bin <= t < (b + 1) * bin
            &&& t < 0 ==> b * bin <= t + 128 * TURN < (b + 1) * bin
        }),
{
    let k = n % 64;
    let cell = 128 * m.xy_res;
    let bin = 128 * m.t_res;
    law_cell_holds_coordinate(m.spot((n / 64) % 64, m.moves@[k].0 as int), cell, 0);
    law_cell_holds_coordinate(m.spot(n / 4096, m.moves@[k].1 as int), cell, 0);
    lemma_heading(m, k);
    let h = m.heading(k);
    vstd::arithmetic::div_mod::lemma_fundamental_div_mod(h, bin);
    vstd::arithmetic::div_mod::lemma_mod_bound(h, bin);
    let b = h / bin;
    assert(b * bin <= h < (b + 1) * bin) by (nonlinear_arith)
        requires
            h == bin * b + h % bin,
            0 <= h % bin,
            h % bin < bin,
    ;
}

/// Driving a whole number of cells, in either direction, leads exactly that many cells on
/// from everywhere in a cell; and without a turn the heading bin stays.
pub proof fn law_whole_cells_lead_there(m: Motion, n: int, a: int, b: int)
    requires
        m.wf(),
        0 <= n < ALL_SAMPLES,
        m.moves@[n % 64].0 == a * m.xy_res,
        m.moves@[n % 64].1 == b * m.xy_res,
    ensures
        m.outcome(n).0 == a,
        m.outcome(n).1 == b,
        m.rot == 0 ==> m.outcome(n).2 == m.it,
{
    law_sample_ends_in_its_outcome(m, n);
    let k = n % 64;
    let (cx, cy, h) = m.outcome(n);
    lemma_whole(m.xy_res as int, (n / 64) % 64, a, cx);
    lemma_whole(m.xy_res as int, n / 4096, b, cy);
    if m.rot == 0 {
        let (it, r) = (m.it as int, m.t_res as int);
        let t = (128 * it + 2 * k + 1) * r;
        assert(0 <= t && it * (128 * r) < t < (it + 1) * (128 * r)) by (nonlinear_arith)
            requires
                t == (128 * it + 2 * k + 1) * r,
                0 <= k < 64,
                0 < r,
                0 <= it,
        ;
        assert(h == it) by (nonlinear_arith)
            requires
                h * (128 * r) <= t < (h + 1) * (128 * r),
                it * (128 * r) < t < (it + 1) * (128 * r),
                0 < r,
        ;
    }
}

proof fn lemma_whole(res: int, part: int, a: int, c: int)
    requires
        0 < res,
        0 <= part < 64,
        c * (128 * res) <= (2 * part + 1) * res + 128 * (a * res) <= (c + 1) * (128 * res),
    ensures
        c == a,
{
    let x = (2 * part + 1) * res + 128 * (a * res);
    assert(a * (128 * res) < x < (a + 1) * (128 * res)) by (nonlinear_arith)
        requires
            x == (2 * part + 1) * res + 128 * (a * res),
            0 <= part < 64,
            0 < res,
    ;
    assert(c == a) by (nonlinear_arith)
        requires
            c * (128 * res) <= x <= (c + 1) * (128 * res),
            a * (128 * res) < x < (a + 1) * (128 * res),
            0 < res,
    ;
}

/// How many of the first `n` samples end in `o`.
pub open spec fn samples_in(m: Motion, o: (int, int, int), n: int) -> int
    decreases n,
{
    if n <= 0 {
        0
    } else {
        samples_in(m, o, n - 1) + if m.outcome(n - 1) == o {
            1int
        } else {
            0
        }
    }
}

/// What a listed outcome says.
pub open spec fn told(tr: StateTransition) -> (int, int, int) {
    (tr.dix as int, tr.diy as int, tr.dit as int)
}

/// Each listed outcome has as many samples as end in it, and every outcome that a sample ends
/// in is listed.
pub proof fn law_outcomes_are_counted(m: Motion, n: int)
    requires
        m.wf(),
        0 <= n <= ALL_SAMPLES,
    ensures
        forall|i: int|
            0 <= i < tally(m, n).len() ==> (#[trigger] tally(m, n)[i]).prob == samples_in(
                m,
                told(tally(m, n)[i]),
                n,
            ),
        forall|j: int| 0 <= j < n ==> is_listed(tally(m, n), #[trigger] m.outcome(j)),
    decreases n,
{
    if n > 0 {
        law_outcomes_are_counted(m, n - 1);
        law_samples_add_up(m, n - 1);
        lemma_outcome_fits(m, n - 1);
        let l = tally(m, n - 1);
        let t = tally(m, n);
        let o = m.outcome(n - 1);
        let len = l.len() as int;
        let f = find(l, o, len);
        lemma_find(l, o, len);
        if f < len {
            lemma_samples_bound(l, f, len);
            assert(told(t[f]) == o);
        } else {
            lemma_unlisted(m, l, o, n - 1);
            assert(told(t[len]) == o);
        }
        assert forall|i: int| 0 <= i < t.len() implies (#[trigger] t[i]).prob == samples_in(
            m,
            told(t[i]),
            n,
        ) by {
            if i < len {
                assert(l[i].prob == samples_in(m, told(l[i]), n - 1));
                assert(told(t[i]) == told(l[i]));
                if i != f && f < len && told(l[i]) == o {
                    if i < f {
                        assert(!same_outcome(l[i], l[f]));
                    } else {
                        assert(!same_outcome(l[f], l[i]));
                    }
                }
                if f >= len {
                    assert(!is_outcome(l[i], o));
                }
            }
        }
        assert forall|j: int| 0 <= j < n implies is_listed(t, #[trigger] m.outcome(j)) by {
            if j < n - 1 {
                assert(is_listed(l, m.outcome(j)));
                let i = choose|i: int| 0 <= i < l.len() && told(#[trigger] l[i]) == m.outcome(j);
                assert(told(t[i]) == told(l[i]));
            } else if f < len {
                assert(told(t[f]) == o);
            } else {
                assert(told(t[len]) == o);
            }
        }
    }
}

/// The outcome `o` is listed.
pub open spec fn is_listed(list: Seq<StateTransition>, o: (int, int, int)) -> bool {
    exists|i: int| 0 <= i < list.len() && told(#[trigger] list[i]) == o
}

proof fn lemma_unlisted(m: Motion, l: Seq<StateTransition>, o: (int, int, int), n: int)
    requires
        forall|j: int| 0 <= j < n ==> is_listed(l, #[trigger] m.outcome(j)),
        forall|i: int| 0 <= i < l.len() ==> !is_outcome(#[trigger] l[i], o),
    ensures
        samples_in(m, o, n) == 0,
    decreases n,
{
    if n > 0 {
        lemma_unlisted(m, l, o, n - 1);
        assert(is_listed(l, m.outcome(n - 1)));
    }
}

/// Driving on and then back by the same length, without a turn, leads back to within a
/// nanometre along each axis, and driving the same length in the opposite direction is
/// driving back.
pub proof fn law_driving_back_leads_back(len: int, factor: int)
    ensures
        -1 <= scaled(len, factor) + scaled(-len, factor) <= 1,
        scaled(-len, factor) == scaled(len, -factor),
        scaled(-len, -factor) == scaled(len, factor),
{
    assert((-len) * factor == -(len * factor) && len * (-factor) == -(len * factor) && (-len) * (
    -factor) == len * factor) by (nonlinear_arith);
    law_scaled_is_nearest(len, factor);
    law_scaled_is_nearest(-len, factor);
    let (a, b, u) = (scaled(len, factor), scaled(-len, factor), UNIT as int);
    assert(-1 <= a + b <= 1) by (nonlinear_arith)
        requires
            2 * (a * u - len * factor) <= u,
            2 * (len * factor - a * u) < u,
            2 * (b * u + len * factor) <= u,
            2 * (-(len * factor) - b * u) < u,
            u == 1_000_000_000,
    ;
}

} // verus!
