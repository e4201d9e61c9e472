//! The belief of the most likely path: one cost per state, moved along with the robot,
//! spread by its noise, and raised by what it observes.
use vstd::prelude::*;

use crate::belief::index::{lemma_at, lemma_at_injective, BeliefGrid};
use crate::belief::minplus::{
    apart, is_least, plus, relax_line, relax_ring, spread_over, FAR,
};
use crate::chamfer::abs;
use crate::grid::on_axis;

verus! {

/// An axis of the lattice.
#[derive(Clone, Copy, Debug, PartialEq, Eq, Structural)]
pub enum Dir {
    X,
    Y,
    Heading,
}

impl Dir {
    /// The state number `k` of the line `(u, v)` along this axis.
    pub open spec fn place(self, u: int, v: int, k: int) -> (int, int, int) {
        match self {
            Dir::X => (k, u, v),
            Dir::Y => (u, k, v),
            Dir::Heading => (u, v, k),
        }
    }

    /// States of a line along this axis.
    pub open spec fn len(self, g: BeliefGrid) -> int {
        match self {
            Dir::X => g.nx as int,
            Dir::Y => g.ny as int,
            Dir::Heading => g.nt as int,
        }
    }

    /// Range of the first number of a line.
    pub open spec fn us(self, g: BeliefGrid) -> int {
        match self {
            Dir::X => g.ny as int,
            _ => g.nx as int,
        }
    }

    /// Range of the second number of a line.
    pub open spec fn vs(self, g: BeliefGrid) -> int {
        match self {
            Dir::Heading => g.ny as int,
            _ => g.nt as int,
        }
    }

    /// The line of a state, and the state's number on it.
    pub open spec fn line_of(self, x: int, y: int, t: int) -> (int, int, int) {
        match self {
            Dir::X => (y, t, x),
            Dir::Y => (x, t, y),
            Dir::Heading => (x, y, t),
        }
    }
}

/// The cost of the state `(x, y, t)`.
pub open spec fn cost_at(d: Seq<u64>, g: BeliefGrid, x: int, y: int, t: int) -> u64 {
    d[g.at(x, y, t)]
}

/// The costs of the line `(u, v)` along an axis.
pub open spec fn line(d: Seq<u64>, g: BeliefGrid, dir: Dir, u: int, v: int) -> Seq<u64> {
    Seq::new(
        dir.len(g) as nat,
        |k: int|
            {
                let (x, y, t) = dir.place(u, v, k);
                cost_at(d, g, x, y, t)
            },
    )
}

/// `new` has the least costs along one axis of `old`.
pub open spec fn spread_along(
    old: Seq<u64>,
    new: Seq<u64>,
    g: BeliefGrid,
    dir: Dir,
    step: int,
) -> bool {
    &&& new.len() == old.len()
    &&& forall|x: int, y: int, t: int|
        g.has(x, y, t) ==> {
            let (u, v, k) = dir.line_of(x, y, t);
            is_least(
                line(old, g, dir, u, v),
                k,
                step,
                dir == Dir::Heading,
                #[trigger] cost_at(new, g, x, y, t) as int,
            )
        }
}

/// Position of state `k` of the line `(u, v)`.
fn spot(g: &BeliefGrid, dir: Dir, u: i32, v: i32, k: i32) -> (r: usize)
    requires
        g.wf(),
        on_axis(u as int, dir.us(*g)),
        on_axis(v as int, dir.vs(*g)),
        on_axis(k as int, dir.len(*g)),
    ensures
        ({
            let (x, y, t) = dir.place(u as int, v as int, k as int);
            g.has(x, y, t) && r == g.at(x, y, t)
        }),
        r < g.len(),
{
    match dir {
        Dir::X => g.index(k, u, v),
        Dir::Y => g.index(u, k, v),
        Dir::Heading => g.index(u, v, k),
    }
}

/// The costs of one line.
fn read_line(d: &Vec<u64>, g: &BeliefGrid, dir: Dir, u: i32, v: i32, n: i32) -> (r: Vec<u64>)
    requires
        g.wf(),
        d@.len() == g.len(),
        on_axis(u as int, dir.us(*g)),
        on_axis(v as int, dir.vs(*g)),
        n == dir.len(*g),
    ensures
        r@ == line(d@, *g, dir, u as int, v as int),
{
    let mut out: Vec<u64> = Vec::new();
    let mut k: i32 = 0;
    while k < n
        invariant
            g.wf(),
            d@.len() == g.len(),
            on_axis(u as int, dir.us(*g)),
            on_axis(v as int, dir.vs(*g)),
            n == dir.len(*g),
            0 <= k <= n,
            out@ == line(d@, *g, dir, u as int, v as int).take(k as int),
        decreases n - k,
    {
        let i: usize = spot(g, dir, u, v, k);
        out.push(d[i]);
        assert(out@ =~= line(d@, *g, dir, u as int, v as int).take(k + 1));
        k += 1;
    }
    assert(out@ =~= line(d@, *g, dir, u as int, v as int));
    out
}

/// Writes the costs of one line.
fn write_line(d: &mut Vec<u64>, g: &BeliefGrid, dir: Dir, u: i32, v: i32, new: &Vec<u64>)
    requires
        g.wf(),
        old(d)@.len() == g.len(),
        on_axis(u as int, dir.us(*g)),
        on_axis(v as int, dir.vs(*g)),
        new@.len() == dir.len(*g),
    ensures
        final(d)@.len() == old(d)@.len(),
        forall|x: int, y: int, t: int|
            g.has(x, y, t) ==> {
                let (a, b, k) = dir.line_of(x, y, t);
                #[trigger] cost_at(final(d)@, *g, x, y, t) == if a == u && b == v {
                    new@[k]
                } else {
                    cost_at(old(d)@, *g, x, y, t)
                }
            },
{
    let ghost d0 = d@;
    let ghost gg = *g;
    let mut k: usize = 0;
    while k < new.len()
        invariant
            g.wf(),
            gg == *g,
            d@.len() == g.len(),
            d0.len() == g.len(),
            on_axis(u as int, dir.us(*g)),
            on_axis(v as int, dir.vs(*g)),
            new@.len() == dir.len(*g),
            k <= new@.len(),
            forall|x: int, y: int, t: int|
                gg.has(x, y, t) ==> {
                    let (a, b, j) = dir.line_of(x, y, t);
                    #[trigger] cost_at(d@, gg, x, y, t) == if a == u && b == v && j < k {
                        new@[j]
                    } else {
                        cost_at(d0, gg, x, y, t)
                    }
                },
        decreases new.len() - k,
    {
        let i: usize = spot(g, dir, u, v, k as i32);
        let ghost before = d@;
        d.set(i, new[k]);
        proof {
            let (px, py, pt) = dir.place(u as int, v as int, k as int);
            assert forall|x: int, y: int, t: int| gg.has(x, y, t) implies {
                let (a, b, j) = dir.line_of(x, y, t);
                #[trigger] cost_at(d@, gg, x, y, t) == if a == u && b == v && j < k + 1 {
                    new@[j]
                } else {
                    cost_at(d0, gg, x, y, t)
                }
            } by {
                let c = cost_at(before, gg, x, y, t);
                lemma_at(gg, x, y, t);
                if gg.at(x, y, t) == i {
                    lemma_at_injective(gg, x, y, t, px, py, pt);
                }
            }
        }
        k += 1;
    }
}

/// Spreads costs along one axis, which the headings make a ring.
pub fn relax_axis(d: &mut Vec<u64>, g: &BeliefGrid, dir: Dir, step: u64)
    requires
        g.wf(),
        old(d)@.len() == g.len(),
    ensures
        spread_along(old(d)@, final(d)@, *g, dir, step as int),
{
    let ghost d0 = d@;
    let ghost gg = *g;
    let ghost s = step as int;
    let (n, nu, nv) = match dir {
        Dir::X => (g.nx, g.ny, g.nt),
        Dir::Y => (g.ny, g.nx, g.nt),
        Dir::Heading => (g.nt, g.nx, g.ny),
    };
    let ring: bool = match dir {
        Dir::Heading => true,
        _ => false,
    };
    let mut v: i32 = 0;
    while v < nv
        invariant
            g.wf(),
            gg == *g,
            s == step,
                n == dir.len(gg),
            nu == dir.us(gg),
            nv == dir.vs(gg),
            ring == (dir == Dir::Heading),
            0 <= v <= nv,
            half_spread(d0, d@, gg, dir, s, 0, v as int),
        decreases nv - v,
    {
        let mut u: i32 = 0;
        while u < nu
            invariant
                g.wf(),
                gg == *g,
                s == step,
                        n == dir.len(gg),
                nu == dir.us(gg),
                nv == dir.vs(gg),
                ring == (dir == Dir::Heading),
                0 <= v < nv,
                0 <= u <= nu,
                half_spread(d0, d@, gg, dir, s, u as int, v as int),
            decreases nu - u,
        {
            let mut l: Vec<u64> = read_line(d, g, dir, u, v, n);
            let ghost before = d@;
            proof {
                let (l0, l1) = (
                    line(d0, gg, dir, u as int, v as int),
                    line(d@, gg, dir, u as int, v as int),
                );
                assert forall|k: int| 0 <= k < n implies #[trigger] l1[k] == l0[k] by {
                    let (x, y, t) = dir.place(u as int, v as int, k);
                    assert(gg.has(x, y, t));
                    let c = cost_at(d@, gg, x, y, t);
                }
                assert(l1 =~= l0);
            }
            if ring {
                relax_ring(&mut l, step);
            } else {
                relax_line(&mut l, step);
            }
            write_line(d, g, dir, u, v, &l);
            proof {
                lemma_half(d0, before, d@, gg, dir, s, u as int, v as int, l@);
            }
            u += 1;
        }
        v += 1;
    }
}

/// The lines before `(u, v)` have been spread; the others are as they were.
spec fn half_spread(
    d0: Seq<u64>,
    d: Seq<u64>,
    g: BeliefGrid,
    dir: Dir,
    step: int,
    u: int,
    v: int,
) -> bool {
    &&& d.len() == g.len()
    &&& d0.len() == g.len()
    &&& forall|x: int, y: int, t: int|
        g.has(x, y, t) ==> {
            let (a, b, k) = dir.line_of(x, y, t);
            let c = #[trigger] cost_at(d, g, x, y, t);
            if b < v || b == v && a < u {
                is_least(line(d0, g, dir, a, b), k, step, dir == Dir::Heading, c as int)
            } else {
                c == cost_at(d0, g, x, y, t)
            }
        }
}

proof fn lemma_half(
    d0: Seq<u64>,
    before: Seq<u64>,
    d: Seq<u64>,
    g: BeliefGrid,
    dir: Dir,
    step: int,
    u: int,
    v: int,
    l: Seq<u64>,
)
    requires
        half_spread(d0, before, g, dir, step, u, v),
        d.len() == before.len(),
        spread_over(line(d0, g, dir, u, v), l, step, dir == Dir::Heading),
        forall|x: int, y: int, t: int|
            g.has(x, y, t) ==> {
                let (a, b, k) = dir.line_of(x, y, t);
                #[trigger] cost_at(d, g, x, y, t) == if a == u && b == v {
                    l[k]
                } else {
                    cost_at(before, g, x, y, t)
                }
            },
    ensures
        half_spread(d0, d, g, dir, step, u + 1, v),
{
    assert forall|x: int, y: int, t: int| g.has(x, y, t) implies {
        let (a, b, k) = dir.line_of(x, y, t);
        let c = #[trigger] cost_at(d, g, x, y, t);
        if b < v || b == v && a < u + 1 {
            is_least(line(d0, g, dir, a, b), k, step, dir == Dir::Heading, c as int)
        } else {
            c == cost_at(d0, g, x, y, t)
        }
    } by {
        let (a, b, k) = dir.line_of(x, y, t);
        let c = cost_at(before, g, x, y, t);
        if a == u && b == v {
            assert(is_least(line(d0, g, dir, u, v), k, step, dir == Dir::Heading, l[k] as int));
        }
    }
}

/// What it costs to be off by `(x, y, t)` cells and headings.
pub open spec fn drift(
    g: BeliefGrid,
    p: (int, int, int),
    q: (int, int, int),
    xy: int,
    heading: int,
) -> int {
    xy * abs(p.0 - q.0) + xy * abs(p.1 - q.1) + heading * apart(p.2, q.2, g.nt as int, true)
}

/// `new` has, for every state, the least cost of coming there from any state: what that
/// state costs, and what the way costs.
pub open spec fn spread_everywhere(
    old: Seq<u64>,
    new: Seq<u64>,
    g: BeliefGrid,
    xy: int,
    heading: int,
) -> bool {
    &&& new.len() == old.len()
    &&& forall|x: int, y: int, t: int|
        g.has(x, y, t) ==> is_spread(
            old,
            g,
            xy,
            heading,
            (x, y, t),
            #[trigger] cost_at(new, g, x, y, t) as int,
        )
}

/// `r` is the least cost of coming to the state `p` from any state.
pub open spec fn is_spread(
    old: Seq<u64>,
    g: BeliefGrid,
    xy: int,
    heading: int,
    p: (int, int, int),
    r: int,
) -> bool {
    &&& forall|x: int, y: int, t: int|
        g.has(x, y, t) ==> r <= plus(
            #[trigger] cost_at(old, g, x, y, t) as int,
            drift(g, p, (x, y, t), xy, heading),
        )
    &&& exists|x: int, y: int, t: int|
        g.has(x, y, t) && r == plus(
            #[trigger] cost_at(old, g, x, y, t) as int,
            drift(g, p, (x, y, t), xy, heading),
        )
}

proof fn lemma_compose(
    d0: Seq<u64>,
    d1: Seq<u64>,
    d2: Seq<u64>,
    d3: Seq<u64>,
    g: BeliefGrid,
    xy: int,
    heading: int,
    x: int,
    y: int,
    t: int,
)
    requires
        0 <= xy,
        0 <= heading,
        g.has(x, y, t),
        spread_along(d0, d1, g, Dir::X, xy),
        spread_along(d1, d2, g, Dir::Y, xy),
        spread_along(d2, d3, g, Dir::Heading, heading),
    ensures
        is_spread(d0, g, xy, heading, (x, y, t), cost_at(d3, g, x, y, t) as int),
{
    let r = cost_at(d3, g, x, y, t) as int;
    let l3 = line(d2, g, Dir::Heading, x, y);
    assert(is_least(l3, t, heading, true, r));
    assert forall|a: int, b: int, c: int| g.has(a, b, c) implies r <= plus(
        #[trigger] cost_at(d0, g, a, b, c) as int,
        drift(g, (x, y, t), (a, b, c), xy, heading),
    ) by {
        let l1 = line(d0, g, Dir::X, b, c);
        let l2 = line(d1, g, Dir::Y, x, c);
        assert(l1[a] == cost_at(d0, g, a, b, c));
        assert(g.has(x, b, c) && g.has(x, y, c));
        let c1 = cost_at(d1, g, x, b, c);
        assert(is_least(l1, x, xy, false, c1 as int));
        let c2 = cost_at(d2, g, x, y, c);
        assert(is_least(l2, y, xy, false, c2 as int));
        assert(l2[b] == c1);
        assert(l3[c] == c2);
        lemma_chain(
            l1[a] as int,
            c1 as int,
            c2 as int,
            r,
            xy * abs(x - a),
            xy * abs(y - b),
            heading * apart(t, c, g.nt as int, true),
        );
        lemma_steps(xy, abs(x - a));
        lemma_steps(xy, abs(y - b));
        lemma_steps(heading, apart(t, c, g.nt as int, true));
    }
    let c = choose|c: int|
        0 <= c < l3.len() && r == plus(
            #[trigger] l3[c] as int,
            heading * apart(t, c, g.nt as int, true),
        );
    assert(g.has(x, y, c));
    let c2 = cost_at(d2, g, x, y, c);
    assert(l3[c] == c2);
    let l2 = line(d1, g, Dir::Y, x, c);
    assert(is_least(l2, y, xy, false, c2 as int));
    let b = choose|b: int|
        0 <= b < l2.len() && c2 == plus(#[trigger] l2[b] as int, xy * apart(y, b, g.ny as int, false));
    assert(g.has(x, b, c));
    let c1 = cost_at(d1, g, x, b, c);
    assert(l2[b] == c1);
    let l1 = line(d0, g, Dir::X, b, c);
    assert(is_least(l1, x, xy, false, c1 as int));
    let a = choose|a: int|
        0 <= a < l1.len() && c1 == plus(#[trigger] l1[a] as int, xy * apart(x, a, g.nx as int, false));
    assert(g.has(a, b, c));
    assert(l1[a] == cost_at(d0, g, a, b, c));
    lemma_steps(xy, abs(x - a));
    lemma_steps(xy, abs(y - b));
    lemma_steps(heading, apart(t, c, g.nt as int, true));
    assert(r == plus(
        cost_at(d0, g, a, b, c) as int,
        drift(g, (x, y, t), (a, b, c), xy, heading),
    ));
}

proof fn lemma_steps(step: int, n: int)
    requires
        0 <= step,
        0 <= n,
    ensures
        0 <= step * n,
{
    assert(0 <= step * n) by (nonlinear_arith)
        requires
            0 <= step,
            0 <= n,
    ;
}

proof fn lemma_chain(v: int, c1: int, c2: int, r: int, a: int, b: int, c: int)
    requires
        0 <= v,
        0 <= c1,
        0 <= c2,
        c1 <= plus(v, a),
        c2 <= plus(c1, b),
        r <= plus(c2, c),
    ensures
        0 <= a && 0 <= b && 0 <= c ==> r <= plus(v, a + b + c),
{
}

/// Spreads all costs: along the columns, the rows and the headings.
pub fn minplus_relax(d: &mut Vec<u64>, g: &BeliefGrid, xy: u64, heading: u64)
    requires
        g.wf(),
        old(d)@.len() == g.len(),
    ensures
        spread_everywhere(old(d)@, final(d)@, *g, xy as int, heading as int),
{
    let ghost d0 = d@;
    relax_axis(d, g, Dir::X, xy);
    let ghost d1 = d@;
    relax_axis(d, g, Dir::Y, xy);
    let ghost d2 = d@;
    relax_axis(d, g, Dir::Heading, heading);
    proof {
        assert forall|x: int, y: int, t: int| g.has(x, y, t) implies is_spread(
            d0,
            *g,
            xy as int,
            heading as int,
            (x, y, t),
            #[trigger] cost_at(d@, *g, x, y, t) as int,
        ) by {
            lemma_compose(d0, d1, d2, d@, *g, xy as int, heading as int, x, y, t);
        }
    }
}

/// The heading that a turn by `turn` headings leads to `t` from.
pub open spec fn turned_from(t: int, turn: int, nt: int) -> int {
    (t - turn) % nt
}

/// The costs of a belief that has moved along: `moves` has, for every heading, how many
/// columns and rows the robot has driven; then it has turned by `turn` headings.
pub open spec fn shifted(
    old: Seq<u64>,
    g: BeliefGrid,
    moves: Seq<(i32, i32)>,
    turn: int,
    x: int,
    y: int,
    t: int,
) -> u64 {
    let h = turned_from(t, turn, g.nt as int);
    let (a, b) = (x - moves[h].0, y - moves[h].1);
    if on_axis(a, g.nx as int) && on_axis(b, g.ny as int) {
        cost_at(old, g, a, b, h)
    } else {
        FAR
    }
}

/// Moves a belief along with the robot. What comes from off the map is out of the
/// question.
pub fn minplus_shift(d: &mut Vec<u64>, g: &BeliefGrid, moves: &Vec<(i32, i32)>, turn: i32)
    requires
        g.wf(),
        old(d)@.len() == g.len(),
        moves@.len() == g.nt,
    ensures
        is_shifted(old(d)@, final(d)@, *g, moves@, turn as int),
        final(d)@.len() == old(d)@.len(),
        forall|x: int, y: int, t: int|
            g.has(x, y, t) ==> #[trigger] cost_at(final(d)@, *g, x, y, t) == shifted(
                old(d)@,
                *g,
                moves@,
                turn as int,
                x,
                y,
                t,
            ),
        forall|x: int, y: int, h: int|
            g.has(x, y, h) && on_axis(x + moves@[h].0, g.nx as int) && on_axis(
                y + moves@[h].1,
                g.ny as int,
            ) ==> #[trigger] cost_at(old(d)@, *g, x, y, h) == cost_at(
                final(d)@,
                *g,
                x + moves@[h].0,
                y + moves@[h].1,
                (h + turn) % (g.nt as int),
            ),
{
    let ghost d0 = d@;
    let ghost gg = *g;
    let mut out: Vec<u64> = Vec::new();
    let (nx, ny, nt) = (g.nx, g.ny, g.nt);
    let mut t: i32 = 0;
    assert(t * ny * nx == 0) by (nonlinear_arith)
        requires
            t == 0,
    ;
    while t < nt
        invariant
            g.wf(),
            gg == *g,
            d0 == d@,
            d0.len() == g.len(),
            moves@.len() == g.nt,
            (nx, ny, nt) == (g.nx, g.ny, g.nt),
            0 <= t <= nt,
            out@.len() == t * ny * nx,
            forall|x: int, y: int, h: int|
                gg.has(x, y, h) && h < t ==> #[trigger] cost_at(out@, gg, x, y, h) == shifted(
                    d0,
                    gg,
                    moves@,
                    turn as int,
                    x,
                    y,
                    h,
                ),
        decreases nt - t,
    {
        let from: i64 = t as i64 - turn as i64;
        let h: i32 = rem_floor(from, nt);
        let (rx, ry) = moves[h as usize];
        let mut y: i32 = 0;
        proof {
            assert(t * ny * nx == (t * ny + 0) * nx);
        }
        while y < ny
            invariant
                g.wf(),
                gg == *g,
                d0 == d@,
                d0.len() == g.len(),
                moves@.len() == g.nt,
                (nx, ny, nt) == (g.nx, g.ny, g.nt),
                0 <= t < nt,
                h == turned_from(t as int, turn as int, nt as int),
                0 <= h < nt,
                (rx, ry) == moves@[h as int],
                0 <= y <= ny,
                out@.len() == (t * ny + y) * nx,
                forall|a: int, b: int, c: int|
                    gg.has(a, b, c) && (c < t || c == t && b < y) ==> #[trigger] cost_at(
                        out@,
                        gg,
                        a,
                        b,
                        c,
                    ) == shifted(d0, gg, moves@, turn as int, a, b, c),
            decreases ny - y,
        {
            let mut x: i32 = 0;
            while x < nx
                invariant
                    g.wf(),
                    gg == *g,
                    d0 == d@,
                    d0.len() == g.len(),
                    moves@.len() == g.nt,
                    (nx, ny, nt) == (g.nx, g.ny, g.nt),
                    0 <= t < nt,
                    h == turned_from(t as int, turn as int, nt as int),
                    0 <= h < nt,
                    (rx, ry) == moves@[h as int],
                    0 <= y < ny,
                    0 <= x <= nx,
                    out@.len() == (t * ny + y) * nx + x,
                    forall|a: int, b: int, c: int|
                        gg.has(a, b, c) && (c < t || c == t && (b < y || b == y && a < x))
                            ==> #[trigger] cost_at(out@, gg, a, b, c) == shifted(
                            d0,
                            gg,
                            moves@,
                            turn as int,
                            a,
                            b,
                            c,
                        ),
                decreases nx - x,
            {
                let sx: i64 = x as i64 - rx as i64;
                let sy: i64 = y as i64 - ry as i64;
                let v: u64 = if sx >= 0 && sx < nx as i64 && sy >= 0 && sy < ny as i64 {
                    d[g.index(sx as i32, sy as i32, h)]
                } else {
                    FAR
                };
                let ghost before = out@;
                out.push(v);
                proof {
                    assert forall|a: int, b: int, c: int|
                        gg.has(a, b, c) && (c < t || c == t && (b < y || b == y && a < x
                            + 1)) implies #[trigger] cost_at(out@, gg, a, b, c) == shifted(
                        d0,
                        gg,
                        moves@,
                        turn as int,
                        a,
                        b,
                        c,
                    ) by {
                        lemma_order(gg, a, b, c, x as int, y as int, t as int);
                        if a != x || b != y || c != t {
                            let q = cost_at(before, gg, a, b, c);
                        }
                    }
                }
                x += 1;
            }
            proof {
                assert((t * ny + y) * nx + nx == (t * ny + (y + 1)) * nx) by (nonlinear_arith);
            }
            y += 1;
        }
        proof {
            assert((t * ny + ny) * nx == (t + 1) * ny * nx) by (nonlinear_arith);
        }
        t += 1;
    }
    *d = out;
    proof {
        assert(t == nt);
        assert(is_shifted(d0, d@, gg, moves@, turn as int));
        assert forall|x: int, y: int, h: int|
            g.has(x, y, h) && on_axis(x + moves@[h].0, g.nx as int) && on_axis(
                y + moves@[h].1,
                g.ny as int,
            ) implies #[trigger] cost_at(d0, *g, x, y, h) == cost_at(
            d@,
            *g,
            x + moves@[h].0,
            y + moves@[h].1,
            (h + turn) % (g.nt as int),
        ) by {
            law_shift_carries_hypotheses(d0, d@, gg, moves@, turn as int, x, y, h);
        }
    }
}

/// States that come earlier stand at smaller positions.
proof fn lemma_order(g: BeliefGrid, a: int, b: int, c: int, x: int, y: int, t: int)
    requires
        g.wf(),
        g.has(a, b, c),
        g.has(x, y, t),
        c < t || c == t && (b < y || b == y && a <= x),
    ensures
        0 <= g.at(a, b, c) <= g.at(x, y, t),
        (a, b, c) != (x, y, t) ==> g.at(a, b, c) < g.at(x, y, t),
{
    lemma_at(g, a, b, c);
    lemma_at(g, x, y, t);
    let (ny, nx) = (g.ny as int, g.nx as int);
    if c < t {
        assert(c * ny + b + 1 <= t * ny + y) by (nonlinear_arith)
            requires
                c + 1 <= t,
                0 <= b < ny,
                0 <= y,
        ;
    }
    let (r, s) = (c * ny + b, t * ny + y);
    if r < s {
        assert(r * nx + a < s * nx + x) by (nonlinear_arith)
            requires
                r + 1 <= s,
                0 <= a < nx,
                0 <= x,
        ;
    }
}

/// The remainder of `a`, never negative.
pub fn rem_floor(a: i64, n: i32) -> (r: i32)
    requires
        0 < n,
        -0x1_0000_0000 <= a <= 0x1_0000_0000,
    ensures
        r == a as int % (n as int),
        0 <= r < n,
{
    if a >= 0 {
        (a % n as i64) as i32
    } else {
        let m: i64 = (-a) % n as i64;
        proof {
            let (q, k) = ((-a) as int / n as int, m as int);
            vstd::arithmetic::div_mod::lemma_fundamental_div_mod(-a as int, n as int);
            if k == 0 {
                assert(a == n * (-q) + 0) by (nonlinear_arith)
                    requires
                        -a == n * q + k,
                        k == 0,
                ;
                vstd::arithmetic::div_mod::lemma_fundamental_div_mod_converse(
                    a as int,
                    n as int,
                    -q,
                    0,
                );
            } else {
                assert(a == n * (-q - 1) + (n - k)) by (nonlinear_arith)
                    requires
                        -a == n * q + k,
                ;
                vstd::arithmetic::div_mod::lemma_fundamental_div_mod_converse(
                    a as int,
                    n as int,
                    -q - 1,
                    n - k,
                );
            }
        }
        if m == 0 {
            0
        } else {
            (n as i64 - m) as i32
        }
    }
}

/// `new` is the belief `old` after the robot has driven `moves` and turned by `turn`
/// headings.
pub open spec fn is_shifted(
    old: Seq<u64>,
    new: Seq<u64>,
    g: BeliefGrid,
    moves: Seq<(i32, i32)>,
    turn: int,
) -> bool {
    &&& new.len() == old.len()
    &&& forall|x: int, y: int, t: int|
        g.has(x, y, t) ==> #[trigger] cost_at(new, g, x, y, t) == shifted(
            old,
            g,
            moves,
            turn,
            x,
            y,
            t,
        )
}

/// The heading that lies `turn` headings on from `h`, in either direction, is the one that a
/// turn by `turn` leads to from `h`, and from no other heading.
proof fn lemma_turn(h: int, k: int, turn: int, nt: int)
    requires
        0 <= h < nt,
        0 <= k < nt,
    ensures
        0 <= (h + turn) % nt < nt,
        turned_from((h + turn) % nt, turn, nt) == h,
        (h + turn) % nt == (k + turn) % nt ==> h == k,
        0 <= turned_from(k, turn, nt) < nt,
        (turned_from(k, turn, nt) + turn) % nt == k,
        turned_from(turned_from(h, turn, nt), -turn, nt) == h,
{
    lemma_on_and_back(h, turn, nt);
    lemma_on_and_back(k, turn, nt);
    lemma_on_and_back(k, -turn, nt);
    lemma_on_and_back(h, -turn, nt);
}

/// Going on by `turn` and back by it leads back.
proof fn lemma_on_and_back(h: int, turn: int, nt: int)
    requires
        0 <= h < nt,
    ensures
        0 <= (h + turn) % nt < nt,
        ((h + turn) % nt - turn) % nt == h,
{
    let a = h + turn;
    vstd::arithmetic::div_mod::lemma_fundamental_div_mod(a, nt);
    vstd::arithmetic::div_mod::lemma_mod_bound(a, nt);
    let q = a / nt;
    assert(a % nt - turn == nt * (-q) + h) by (nonlinear_arith)
        requires
            a == nt * q + a % nt,
            a == h + turn,
    ;
    vstd::arithmetic::div_mod::lemma_fundamental_div_mod_converse(a % nt - turn, nt, -q, h);
}

/// A hypothesis goes where the robot goes: what stood at `(x, y)` with the heading `h` stands,
/// after the movement, as many columns and rows farther as a robot with that heading has
/// driven, turned by `turn` headings in the direction of its sign, with the cost that it had.
pub proof fn law_shift_carries_hypotheses(
    old: Seq<u64>,
    new: Seq<u64>,
    g: BeliefGrid,
    moves: Seq<(i32, i32)>,
    turn: int,
    x: int,
    y: int,
    h: int,
)
    requires
        g.wf(),
        is_shifted(old, new, g, moves, turn),
        g.has(x, y, h),
        on_axis(x + moves[h].0, g.nx as int),
        on_axis(y + moves[h].1, g.ny as int),
    ensures
        cost_at(new, g, x + moves[h].0, y + moves[h].1, (h + turn) % (g.nt as int)) == cost_at(
            old,
            g,
            x,
            y,
            h,
        ),
{
    lemma_turn(h, h, turn, g.nt as int);
    let q = cost_at(new, g, x + moves[h].0, y + moves[h].1, (h + turn) % (g.nt as int));
}

/// After a movement a state has the cost of a hypothesis that the movement leads to it, or,
/// where it leads there from no state of the map, is out of the question.
pub proof fn law_shift_brings_nothing_else(
    old: Seq<u64>,
    new: Seq<u64>,
    g: BeliefGrid,
    moves: Seq<(i32, i32)>,
    turn: int,
    x: int,
    y: int,
    t: int,
)
    requires
        g.wf(),
        is_shifted(old, new, g, moves, turn),
        g.has(x, y, t),
        forall|a: int, b: int, h: int| #[trigger]
            g.has(a, b, h) ==> !(a + moves[h].0 == x && b + moves[h].1 == y && (h + turn) % (
            g.nt as int) == t),
    ensures
        cost_at(new, g, x, y, t) == FAR,
{
    lemma_turn(t, t, turn, g.nt as int);
    let h = turned_from(t, turn, g.nt as int);
    let q = cost_at(new, g, x, y, t);
    let (a, b) = (x - moves[h].0, y - moves[h].1);
    if on_axis(a, g.nx as int) && on_axis(b, g.ny as int) {
        assert(g.has(a, b, h));
    }
}

/// Turning on the spot and back gives the belief back.
pub proof fn law_turning_back_restores(
    old: Seq<u64>,
    mid: Seq<u64>,
    new: Seq<u64>,
    g: BeliefGrid,
    moves: Seq<(i32, i32)>,
    turn: int,
)
    requires
        g.wf(),
        old.len() == g.len(),
        forall|h: int| 0 <= h < g.nt ==> #[trigger] moves[h] == (0i32, 0i32),
        is_shifted(old, mid, g, moves, turn),
        is_shifted(mid, new, g, moves, -turn),
    ensures
        forall|x: int, y: int, t: int|
            g.has(x, y, t) ==> #[trigger] cost_at(new, g, x, y, t) == cost_at(old, g, x, y, t),
{
    assert forall|x: int, y: int, t: int| g.has(x, y, t) implies #[trigger] cost_at(
        new,
        g,
        x,
        y,
        t,
    ) == cost_at(old, g, x, y, t) by {
        let nt = g.nt as int;
        lemma_turn(t, t, turn, nt);
        lemma_turn(t, t, -turn, nt);
        assert(moves[t] == (0i32, 0i32));
        law_shift_carries_hypotheses(old, mid, g, moves, turn, x, y, t);
        let u = (t + turn) % nt;
        assert(moves[u] == (0i32, 0i32));
        law_shift_carries_hypotheses(mid, new, g, moves, -turn, x, y, u);
    }
}

/// Driving on and driving back, without a turn, gives back the cost of every hypothesis that
/// stays on the map meanwhile.
pub proof fn law_driving_back_restores(
    old: Seq<u64>,
    mid: Seq<u64>,
    new: Seq<u64>,
    g: BeliefGrid,
    there: Seq<(i32, i32)>,
    back: Seq<(i32, i32)>,
    x: int,
    y: int,
    h: int,
)
    requires
        g.wf(),
        is_shifted(old, mid, g, there, 0),
        is_shifted(mid, new, g, back, 0),
        g.has(x, y, h),
        back[h].0 == -there[h].0,
        back[h].1 == -there[h].1,
        on_axis(x + there[h].0, g.nx as int),
        on_axis(y + there[h].1, g.ny as int),
    ensures
        cost_at(new, g, x, y, h) == cost_at(old, g, x, y, h),
{
    law_shift_carries_hypotheses(old, mid, g, there, 0, x, y, h);
    vstd::arithmetic::div_mod::lemma_small_mod(h as nat, g.nt as nat);
    law_shift_carries_hypotheses(mid, new, g, back, 0, x + there[h].0, y + there[h].1, h);
}

/// Being off costs nothing only where nothing is off; it costs the same in both directions
/// and once for each column, row and heading, headings counted the shorter way round.
pub proof fn law_drift_counts_steps(
    g: BeliefGrid,
    p: (int, int, int),
    q: (int, int, int),
    xy: int,
    heading: int,
)
    requires
        0 <= p.2 < g.nt,
        0 <= q.2 < g.nt,
        0 <= xy,
        0 <= heading,
    ensures
        drift(g, p, q, xy, heading) == drift(g, q, p, xy, heading),
        drift(g, p, q, xy, heading) >= 0,
        drift(g, p, p, xy, heading) == 0,
        q.0 >= p.0 ==> drift(g, p, (q.0 + 1, q.1, q.2), xy, heading) == drift(
            g,
            p,
            q,
            xy,
            heading,
        ) + xy,
        q.1 >= p.1 ==> drift(g, p, (q.0, q.1 + 1, q.2), xy, heading) == drift(
            g,
            p,
            q,
            xy,
            heading,
        ) + xy,
        p.2 <= q.2 && 2 * (q.2 + 1 - p.2) <= g.nt && q.2 + 1 < g.nt ==> drift(
            g,
            p,
            (q.0, q.1, q.2 + 1),
            xy,
            heading,
        ) == drift(g, p, q, xy, heading) + heading,
{
    let (a, b, c) = (abs(p.0 - q.0), abs(p.1 - q.1), apart(p.2, q.2, g.nt as int, true));
    assert(0 <= xy * a && 0 <= xy * b && 0 <= heading * c) by (nonlinear_arith)
        requires
            0 <= xy,
            0 <= heading,
            0 <= a,
            0 <= b,
            0 <= c,
    ;
    assert(xy * (a + 1) == xy * a + xy && xy * (b + 1) == xy * b + xy && heading * (c + 1)
        == heading * c + heading) by (nonlinear_arith);
    assert(xy * 0 == 0 && heading * 0 == 0);
}

/// Spreading raises no cost, and what is nowhere cheaper than `least` is not so afterwards
/// either.
pub proof fn law_spreading_only_lowers(
    old: Seq<u64>,
    new: Seq<u64>,
    g: BeliefGrid,
    xy: int,
    heading: int,
    least: u64,
    x: int,
    y: int,
    t: int,
)
    requires
        spread_everywhere(old, new, g, xy, heading),
        0 <= xy,
        0 <= heading,
        g.has(x, y, t),
        forall|u: int, v: int, w: int|
            g.has(u, v, w) ==> least <= #[trigger] cost_at(old, g, u, v, w),
    ensures
        least <= cost_at(new, g, x, y, t) <= cost_at(old, g, x, y, t),
{
    let r = cost_at(new, g, x, y, t) as int;
    assert(is_spread(old, g, xy, heading, (x, y, t), r));
    law_drift_counts_steps(g, (x, y, t), (x, y, t), xy, heading);
    let o = cost_at(old, g, x, y, t);
    let (u, v, w) = choose|u: int, v: int, w: int|
        g.has(u, v, w) && r == plus(
            #[trigger] cost_at(old, g, u, v, w) as int,
            drift(g, (x, y, t), (u, v, w), xy, heading),
        );
    law_drift_counts_steps(g, (x, y, t), (u, v, w), xy, heading);
    assert(least <= cost_at(old, g, u, v, w));
}

} // verus!
