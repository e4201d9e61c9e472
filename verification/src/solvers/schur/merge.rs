//! What a solved tile offers the map, and merging it: the smaller value wins.
use vstd::prelude::*;

use crate::grid::{
    index3, lemma_decode, lemma_encode, lemma_index_bound, on_axis, on_grid, t_of, x_of, y_of,
};
use crate::model::{Grid, Model};
use crate::params::REACH_THRESH;
use crate::solvers::schur::artifact::SchurArtifact;
use crate::solvers::schur::domain::{domain_x, domain_y, lemma_tile_coords, lies_on, tile_grid};
use crate::solvers::schur::tile::TileVi;
use crate::state::{with_value, State};
use crate::value_iterator::ValueIterator;

verus! {

/// A new value for a state of the map: its index, the value, and the action packed
/// into a byte (negative for none).
pub type Diff = (u32, u64, i8);

/// An action packed into a byte.
pub open spec fn packed(a: Option<usize>) -> i8 {
    match a {
        None => -1i8,
        Some(x) => x as i8,
    }
}

/// The action in a byte.
pub open spec fn unpacked(v: i8) -> Option<usize> {
    if v >= 0 {
        Some(v as usize)
    } else {
        None
    }
}

/// State `i` of the map lies in the domain of tile `t`.
pub open spec fn covers(a: SchurArtifact, t: int, i: int) -> bool {
    &&& on_axis(x_of(i, a.nx as int, a.nt as int) - domain_x(a, t), a.side_len())
    &&& on_axis(y_of(i, a.nx as int, a.nt as int) - domain_y(a, t), a.side_len())
}

/// Where state `i` of the map is found in tile `t`.
pub open spec fn tile_at(a: SchurArtifact, t: int, i: int) -> int {
    tile_grid(a).at(
        x_of(i, a.nx as int, a.nt as int) - domain_x(a, t),
        y_of(i, a.nx as int, a.nt as int) - domain_y(a, t),
        t_of(i, a.nt as int),
    )
}

/// The tile `t` with states `ts` has a value for state `i` of the map.
pub open spec fn offers(a: SchurArtifact, t: int, ts: Seq<State>, i: int) -> bool {
    &&& covers(a, t, i)
    &&& !ts[tile_at(a, t, i)].final_state
    &&& ts[tile_at(a, t, i)].total_cost < REACH_THRESH
}

/// What the tile has for state `i` of the map.
pub open spec fn diff_of(a: SchurArtifact, t: int, ts: Seq<State>, i: int) -> Diff {
    let s = ts[tile_at(a, t, i)];
    (i as u32, s.total_cost, packed(s.optimal_action))
}

/// `r` lists all that the tile offers, in the order of the map's states.
pub open spec fn is_diffs(a: SchurArtifact, t: int, ts: Seq<State>, len: int, r: Seq<Diff>) -> bool {
    &&& forall|k: int, l: int| 0 <= k < l < r.len() ==> (#[trigger] r[k]).0 < (#[trigger] r[l]).0
    &&& forall|k: int|
        0 <= k < r.len() ==> {
            let i = (#[trigger] r[k]).0 as int;
            i < len && offers(a, t, ts, i) && r[k] == diff_of(a, t, ts, i)
        }
    &&& forall|i: int| 0 <= i < len && #[trigger] offers(a, t, ts, i) ==> has_diff(r, i)
}

/// `r` has an entry for state `i`.
pub open spec fn has_diff(r: Seq<Diff>, i: int) -> bool {
    exists|k: int| 0 <= k < r.len() && (#[trigger] r[k]).0 == i
}

/// A state after an offer: goals stay, and only a smaller value is taken, together
/// with its action.
pub open spec fn merged_state(s: State, v: u64, a: i8) -> State {
    if s.final_state || v >= s.total_cost {
        s
    } else {
        with_value(s, v, unpacked(a))
    }
}

/// The states after the first `n` offers.
pub open spec fn merged(s: Seq<State>, r: Seq<Diff>, n: int) -> Seq<State>
    decreases n,
{
    if n <= 0 {
        s
    } else {
        let p = merged(s, r, n - 1);
        let (i, v, a) = r[n - 1];
        p.update(i as int, merged_state(p[i as int], v, a))
    }
}

/// The states after all that the tile offers.
pub open spec fn tile_merged(
    a: SchurArtifact,
    t: int,
    ts: Seq<State>,
    s: Seq<State>,
) -> Seq<State> {
    Seq::new(
        s.len(),
        |i: int|
            if offers(a, t, ts, i) {
                let d = diff_of(a, t, ts, i);
                merged_state(s[i], d.1, d.2)
            } else {
                s[i]
            },
    )
}

proof fn lemma_merged_len(s: Seq<State>, r: Seq<Diff>, n: int)
    requires
        n <= r.len(),
        forall|k: int| 0 <= k < r.len() ==> (#[trigger] r[k]).0 < s.len(),
    ensures
        merged(s, r, n).len() == s.len(),
    decreases n,
{
    if n > 0 {
        lemma_merged_len(s, r, n - 1);
        assert(r[n - 1].0 < s.len());
    }
}

proof fn lemma_merged_pointwise(s: Seq<State>, r: Seq<Diff>, n: int, i: int)
    requires
        0 <= n <= r.len(),
        0 <= i < s.len(),
        forall|k: int| 0 <= k < r.len() ==> (#[trigger] r[k]).0 < s.len(),
        forall|k: int, l: int| 0 <= k < l < r.len() ==> (#[trigger] r[k]).0 < (#[trigger] r[l]).0,
    ensures
        forall|k: int|
            0 <= k < n && (#[trigger] r[k]).0 == i ==> merged(s, r, n)[i] == merged_state(
                s[i],
                r[k].1,
                r[k].2,
            ),
        (forall|k: int| 0 <= k < n ==> (#[trigger] r[k]).0 != i) ==> merged(s, r, n)[i] == s[i],
    decreases n,
{
    if n > 0 {
        lemma_merged_pointwise(s, r, n - 1, i);
        lemma_merged_len(s, r, n - 1);
        let p = merged(s, r, n - 1);
        assert(r[n - 1].0 < s.len());
        if r[n - 1].0 == i {
            assert(forall|k: int| 0 <= k < n - 1 ==> (#[trigger] r[k]).0 != i);
            assert(p[i] == s[i]);
        }
        assert forall|k: int| 0 <= k < n && (#[trigger] r[k]).0 == i implies merged(s, r, n)[i]
            == merged_state(s[i], r[k].1, r[k].2) by {
            if k < n - 1 {
                assert(r[k].0 < r[n - 1].0);
                assert(p[i] == merged_state(s[i], r[k].1, r[k].2));
            }
        }
        if forall|k: int| 0 <= k < n ==> (#[trigger] r[k]).0 != i {
            assert(forall|k: int| 0 <= k < n - 1 ==> (#[trigger] r[k]).0 != i);
            assert(r[n - 1].0 != i);
        }
    }
}

/// Merging a tile's list is merging the tile.
pub proof fn lemma_merge_tile(
    a: SchurArtifact,
    t: int,
    ts: Seq<State>,
    s: Seq<State>,
    r: Seq<Diff>,
)
    requires
        is_diffs(a, t, ts, s.len() as int, r),
    ensures
        merged(s, r, r.len() as int) =~= tile_merged(a, t, ts, s),
{
    assert forall|k: int| 0 <= k < r.len() implies (#[trigger] r[k]).0 < s.len() by {}
    lemma_merged_len(s, r, r.len() as int);
    let m = merged(s, r, r.len() as int);
    assert forall|i: int| 0 <= i < s.len() implies m[i] == tile_merged(a, t, ts, s)[i] by {
        lemma_merged_pointwise(s, r, r.len() as int, i);
        if offers(a, t, ts, i) {
            assert(has_diff(r, i));
            let k = choose|k: int| 0 <= k < r.len() && (#[trigger] r[k]).0 == i;
            assert(m[i] == merged_state(s[i], r[k].1, r[k].2));
        } else {
            assert forall|k: int| 0 <= k < r.len() implies (#[trigger] r[k]).0 != i by {}
        }
    }
}

/// A packed action is an action that was there.
proof fn lemma_packed(a: usize)
    ensures
        (a as i8) >= 0 ==> (a as i8) as usize <= a,
{
    assert((a as i8) >= 0 ==> (a as i8) as usize <= a) by (bit_vector);
}

/// Merging keeps the map in shape.
pub proof fn lemma_tile_merged_keeps(
    m: Model,
    a: SchurArtifact,
    t: int,
    ts: Seq<State>,
    s: Seq<State>,
    tm: Model,
)
    requires
        m.grid.located(s),
        m.policy_ok(s),
        tm.policy_ok(ts),
        tm.actions == m.actions,
        forall|i: int| 0 <= i < s.len() && #[trigger] covers(a, t, i) ==> 0 <= tile_at(a, t, i)
            < ts.len(),
    ensures
        m.grid.located(tile_merged(a, t, ts, s)),
        m.policy_ok(tile_merged(a, t, ts, s)),
{
    let n = tile_merged(a, t, ts, s);
    assert forall|i: int| 0 <= i < n.len() implies m.grid.located_at(#[trigger] n[i], i) by {
        assert(m.grid.located_at(s[i], i));
    }
    assert forall|i: int| 0 <= i < n.len() implies ((#[trigger] n[i]).optimal_action matches Some(
        x,
    ) ==> x < m.actions.len()) by {
        assert(s[i].optimal_action matches Some(x) ==> x < m.actions.len());
        if offers(a, t, ts, i) {
            assert(covers(a, t, i));
            let o = ts[tile_at(a, t, i)].optimal_action;
            assert(o matches Some(x) ==> x < m.actions.len());
            if let Some(x) = o {
                lemma_packed(x);
            }
        }
    }
}

/// States in the domain of a tile have a place in the tile.
pub proof fn lemma_tile_at(a: SchurArtifact, vi: ValueIterator, t: int, i: int)
    requires
        lies_on(a, vi),
        0 <= i < vi.grid().len(),
        covers(a, t, i),
    ensures
        0 <= tile_at(a, t, i) < tile_grid(a).len(),
{
    let g = vi.grid();
    lemma_encode(i, g.nx, g.ny, g.nt);
    let tg = tile_grid(a);
    lemma_index_bound(
        x_of(i, g.nx, g.nt) - domain_x(a, t),
        y_of(i, g.nx, g.nt) - domain_y(a, t),
        t_of(i, g.nt),
        tg.nx,
        tg.ny,
        tg.nt,
    );
}

proof fn lemma_lex_less(
    x1: int,
    y1: int,
    t1: int,
    x2: int,
    y2: int,
    t2: int,
    nx: int,
    nt: int,
)
    requires
        on_axis(x1, nx),
        on_axis(t1, nt),
        on_axis(x2, nx),
        on_axis(t2, nt),
        y1 < y2 || y1 == y2 && (x1 < x2 || x1 == x2 && t1 < t2),
    ensures
        index3(x1, y1, t1, nx, nt) < index3(x2, y2, t2, nx, nt),
{
    let c1 = y1 * nx + x1;
    let c2 = y2 * nx + x2;
    if y1 < y2 {
        assert(c1 < c2) by (nonlinear_arith)
            requires
                y1 + 1 <= y2,
                0 <= x1 < nx,
                0 <= x2,
                c1 == y1 * nx + x1,
                c2 == y2 * nx + x2,
        ;
    }
    if c1 < c2 {
        assert(c1 * nt + t1 < c2 * nt + t2) by (nonlinear_arith)
            requires
                c1 + 1 <= c2,
                0 <= t1 < nt,
                0 <= t2,
        ;
    }
}

/// The packed action of a state.
fn pack(a: Option<usize>) -> (r: i8)
    ensures
        r == packed(a),
{
    match a {
        None => -1,
        Some(x) => #[verifier::truncate]
        (x as i8),
    }
}

/// All that the solved tile `t` offers the map.
pub(crate) fn tile_diffs(tv: &TileVi, art: &SchurArtifact, t: usize, Ghost(vi): Ghost<
    ValueIterator,
>) -> (r: Vec<Diff>)
    requires
        vi.wf(),
        lies_on(*art, vi),
        t < art.tnx * art.tny,
        tv.wf(),
        tv.side == art.side_len(),
        tv.nt == art.nt,
    ensures
        is_diffs(*art, t as int, tv.states@, vi.grid().len(), r@),
{
    let ghost a = *art;
    let ghost ti = t as int;
    let ghost ts = tv.states@;
    let ghost g = vi.grid();
    proof {
        lemma_tile_coords(a, vi, ti);
        assert(art.tnx * art.tile >= art.tile && art.tny * art.tile >= art.tile)
            by (nonlinear_arith)
            requires
                1 <= art.tnx,
                1 <= art.tny,
                1 <= art.tile,
        ;
    }
    let (x0, y0) = art.origin_of(t, Ghost(vi));
    let side: i32 = art.side();
    let nt: i32 = art.nt;
    let ix0: i32 = if x0 > 0 {
        x0
    } else {
        0
    };
    let ix1: i32 = if x0 + side < art.nx {
        x0 + side
    } else {
        art.nx
    };
    let iy0: i32 = if y0 > 0 {
        y0
    } else {
        0
    };
    let iy1: i32 = if y0 + side < art.ny {
        y0 + side
    } else {
        art.ny
    };
    let mut out: Vec<Diff> = Vec::new();
    let mut gy: i32 = iy0;
    proof {
        assert forall|x: int, y: int, it: int|
            #![trigger g.at(x, y, it)]
            on_grid(x, y, it, g.nx, g.ny, g.nt) && before(x, y, it, 0, gy as int, 0) && offers(
                a,
                ti,
                ts,
                g.at(x, y, it),
            ) implies has_diff(out@, g.at(x, y, it)) by {
            lemma_decode(x, y, it, g.nx, g.nt);
        }
    }
    while gy < iy1
        invariant
            vi.wf(),
            lies_on(a, vi),
            a == *art,
            ti == t,
            g == vi.grid(),
            ts == tv.states@,
            tv.wf(),
            tv.side == side,
            side == a.side_len(),
            tv.nt == nt,
            nt == a.nt,
            x0 == domain_x(a, ti),
            y0 == domain_y(a, ti),
            x0 + side <= i32::MAX,
            y0 + side <= i32::MAX,
            ix0 == (if x0 > 0 {
                x0
            } else {
                0
            }),
            ix1 == (if x0 + side < a.nx {
                x0 + side
            } else {
                a.nx as int
            }),
            iy0 == (if y0 > 0 {
                y0
            } else {
                0
            }),
            iy1 == (if y0 + side < a.ny {
                y0 + side
            } else {
                a.ny as int
            }),
            iy0 <= gy,
            diffs_before(a, ti, ts, g, out@, 0, gy as int, 0),
        decreases iy1 - gy,
    {
        let mut gx: i32 = ix0;
        proof {
            assert forall|x: int, y: int, it: int|
                #![trigger g.at(x, y, it)]
                on_grid(x, y, it, g.nx, g.ny, g.nt) && before(x, y, it, gx as int, gy as int, 0)
                    && offers(a, ti, ts, g.at(x, y, it)) implies has_diff(
                out@,
                g.at(x, y, it),
            ) by {
                lemma_decode(x, y, it, g.nx, g.nt);
                assert(before(x, y, it, 0, gy as int, 0));
            }
        }
        while gx < ix1
            invariant
                vi.wf(),
                lies_on(a, vi),
                a == *art,
                ti == t,
                g == vi.grid(),
                ts == tv.states@,
                tv.wf(),
                tv.side == side,
                side == a.side_len(),
                tv.nt == nt,
                nt == a.nt,
                x0 == domain_x(a, ti),
                y0 == domain_y(a, ti),
                x0 + side <= i32::MAX,
                y0 + side <= i32::MAX,
                ix0 == (if x0 > 0 {
                    x0
                } else {
                    0
                }),
                ix1 == (if x0 + side < a.nx {
                    x0 + side
                } else {
                    a.nx as int
                }),
                ix0 <= gx,
                y0 <= gy < y0 + side,
                0 <= gy < a.ny,
                diffs_before(a, ti, ts, g, out@, gx as int, gy as int, 0),
            decreases ix1 - gx,
        {
            let mut it: i32 = 0;
            while it < nt
                invariant
                    vi.wf(),
                    lies_on(a, vi),
                    a == *art,
                    ti == t,
                    g == vi.grid(),
                    ts == tv.states@,
                    tv.wf(),
                    tv.side == side,
                    side == a.side_len(),
                    tv.nt == nt,
                    nt == a.nt,
                    x0 == domain_x(a, ti),
                    y0 == domain_y(a, ti),
                    x0 <= gx < x0 + side,
                    0 <= gx < a.nx,
                    y0 <= gy < y0 + side,
                    0 <= gy < a.ny,
                    0 <= it <= nt,
                    diffs_before(a, ti, ts, g, out@, gx as int, gy as int, it as int),
                decreases nt - it,
            {
                let li: usize = tv.index(gx - x0, gy - y0, it);
                let s: State = tv.states[li];
                let ghost i = g.at(gx as int, gy as int, it as int);
                proof {
                    lemma_decode(gx as int, gy as int, it as int, g.nx, g.nt);
                    lemma_index_bound(gx as int, gy as int, it as int, g.nx, g.ny, g.nt);
                    assert(g.nx * (gy + 1) * g.nt <= g.nx * g.ny * g.nt) by (nonlinear_arith)
                        requires
                            0 <= g.nx,
                            0 <= g.nt,
                            gy + 1 <= g.ny,
                    ;
                    assert(tile_at(a, ti, i) == li);
                }
                let ghost old_out = out@;
                if !s.final_state && s.total_cost < REACH_THRESH {
                    let gi: u32 = crate::grid::to_index_raw(gx, gy, it, art.nx, nt) as u32;
                    out.push((gi, s.total_cost, pack(s.optimal_action)));
                    assert(offers(a, ti, ts, i));
                } else {
                    assert(!offers(a, ti, ts, i));
                }
                proof {
                    lemma_diffs_step(
                        a,
                        ti,
                        ts,
                        g,
                        old_out,
                        out@,
                        gx as int,
                        gy as int,
                        it as int,
                    );
                }
                it += 1;
            }
            proof {
                lemma_diffs_carry(
                    a,
                    ti,
                    ts,
                    g,
                    out@,
                    gx as int,
                    gy as int,
                    nt as int,
                    gx + 1,
                    gy as int,
                );
            }
            gx += 1;
        }
        proof {
            assert forall|x: int, y: int, it: int|
                #![trigger g.at(x, y, it)]
                on_grid(x, y, it, g.nx, g.ny, g.nt) && before(x, y, it, 0, gy + 1, 0) && offers(
                    a,
                    ti,
                    ts,
                    g.at(x, y, it),
                ) implies has_diff(out@, g.at(x, y, it)) by {
                lemma_decode(x, y, it, g.nx, g.nt);
                assert(before(x, y, it, gx as int, gy as int, 0));
            }
            assert forall|k: int| 0 <= k < out@.len() implies {
                let i = (#[trigger] out@[k]).0 as int;
                before(
                    x_of(i, g.nx, g.nt),
                    y_of(i, g.nx, g.nt),
                    t_of(i, g.nt),
                    0,
                    gy + 1,
                    0,
                )
            } by {}
        }
        gy += 1;
    }
    proof {
        assert forall|i: int| 0 <= i < g.len() && #[trigger] offers(a, ti, ts, i) implies has_diff(
            out@,
            i,
        ) by {
            lemma_encode(i, g.nx, g.ny, g.nt);
            let (x, y, it) = (x_of(i, g.nx, g.nt), y_of(i, g.nx, g.nt), t_of(i, g.nt));
            assert(g.at(x, y, it) == i);
            assert(before(x, y, it, 0, gy as int, 0));
        }
        assert forall|k: int, l: int| 0 <= k < l < out@.len() implies (#[trigger] out@[k]).0 < (
        #[trigger] out@[l]).0 by {}
    }
    out
}

/// The state `(x, y, t)` comes before `(x2, y2, t2)`.
spec fn before(x: int, y: int, t: int, x2: int, y2: int, t2: int) -> bool {
    y < y2 || y == y2 && (x < x2 || x == x2 && t < t2)
}

/// `r` lists all that the tile offers for states before `(x, y, t)`.
spec fn diffs_before(
    a: SchurArtifact,
    t: int,
    ts: Seq<State>,
    g: Grid,
    r: Seq<Diff>,
    x: int,
    y: int,
    it: int,
) -> bool {
    &&& forall|k: int, l: int| 0 <= k < l < r.len() ==> (#[trigger] r[k]).0 < (#[trigger] r[l]).0
    &&& forall|k: int|
        0 <= k < r.len() ==> {
            let i = (#[trigger] r[k]).0 as int;
            &&& i < g.len()
            &&& offers(a, t, ts, i)
            &&& r[k] == diff_of(a, t, ts, i)
            &&& before(
                x_of(i, g.nx, g.nt),
                y_of(i, g.nx, g.nt),
                t_of(i, g.nt),
                x,
                y,
                it,
            )
        }
    &&& forall|x2: int, y2: int, it2: int|
        #![trigger g.at(x2, y2, it2)]
        on_grid(x2, y2, it2, g.nx, g.ny, g.nt) && before(x2, y2, it2, x, y, it) && offers(
            a,
            t,
            ts,
            g.at(x2, y2, it2),
        ) ==> has_diff(r, g.at(x2, y2, it2))
}

proof fn lemma_diffs_step(
    a: SchurArtifact,
    t: int,
    ts: Seq<State>,
    g: Grid,
    r0: Seq<Diff>,
    r1: Seq<Diff>,
    x: int,
    y: int,
    it: int,
)
    requires
        diffs_before(a, t, ts, g, r0, x, y, it),
        on_grid(x, y, it, g.nx, g.ny, g.nt),
        g.wf(),
        a.nx == g.nx,
        a.nt == g.nt,
        ({
            let i = g.at(x, y, it);
            if offers(a, t, ts, i) {
                r1 == r0.push(diff_of(a, t, ts, i))
            } else {
                r1 == r0
            }
        }),
    ensures
        diffs_before(a, t, ts, g, r1, x, y, it + 1),
{
    let i = g.at(x, y, it);
    lemma_index_bound(x, y, it, g.nx, g.ny, g.nt);
    lemma_decode(x, y, it, g.nx, g.nt);
    if offers(a, t, ts, i) {
        assert(r1[r0.len() as int].0 == i);
        assert forall|k: int| 0 <= k < r0.len() implies (#[trigger] r0[k]).0 < i by {
            let j = r0[k].0 as int;
            lemma_encode(j, g.nx, g.ny, g.nt);
            lemma_lex_less(
                x_of(j, g.nx, g.nt),
                y_of(j, g.nx, g.nt),
                t_of(j, g.nt),
                x,
                y,
                it,
                g.nx,
                g.nt,
            );
        }
        assert forall|k: int, l: int| 0 <= k < l < r1.len() implies (#[trigger] r1[k]).0 < (
        #[trigger] r1[l]).0 by {
            assert(r1[k] == r0[k]);
            if l < r0.len() {
                assert(r1[l] == r0[l]);
            }
        }
    }
    assert forall|k: int| 0 <= k < r1.len() implies {
        let j = (#[trigger] r1[k]).0 as int;
        &&& j < g.len()
        &&& offers(a, t, ts, j)
        &&& r1[k] == diff_of(a, t, ts, j)
        &&& before(x_of(j, g.nx, g.nt), y_of(j, g.nx, g.nt), t_of(j, g.nt), x, y, it + 1)
    } by {
        if k < r0.len() {
            assert(r1[k] == r0[k]);
        }
    }
    assert forall|x2: int, y2: int, it2: int|
        #![trigger g.at(x2, y2, it2)]
        on_grid(x2, y2, it2, g.nx, g.ny, g.nt) && before(x2, y2, it2, x, y, it + 1) && offers(
            a,
            t,
            ts,
            g.at(x2, y2, it2),
        ) implies has_diff(r1, g.at(x2, y2, it2)) by {
        if before(x2, y2, it2, x, y, it) {
            assert(has_diff(r0, g.at(x2, y2, it2)));
            let k = choose|k: int| 0 <= k < r0.len() && (#[trigger] r0[k]).0 == g.at(x2, y2, it2);
            assert(r1[k] == r0[k]);
        } else {
            assert(x2 == x && y2 == y && it2 == it);
            assert(r1[r0.len() as int].0 == i);
        }
    }
}

proof fn lemma_diffs_carry(
    a: SchurArtifact,
    t: int,
    ts: Seq<State>,
    g: Grid,
    r: Seq<Diff>,
    x: int,
    y: int,
    it: int,
    x2: int,
    y2: int,
)
    requires
        diffs_before(a, t, ts, g, r, x, y, it),
        it == g.nt,
        x2 == x + 1,
        y2 == y,
        g.wf(),
    ensures
        diffs_before(a, t, ts, g, r, x2, y2, 0),
{
    assert forall|k: int| 0 <= k < r.len() implies {
        let j = (#[trigger] r[k]).0 as int;
        before(x_of(j, g.nx, g.nt), y_of(j, g.nx, g.nt), t_of(j, g.nt), x2, y2, 0)
    } by {}
    assert forall|x3: int, y3: int, it3: int|
        #![trigger g.at(x3, y3, it3)]
        on_grid(x3, y3, it3, g.nx, g.ny, g.nt) && before(x3, y3, it3, x2, y2, 0) && offers(
            a,
            t,
            ts,
            g.at(x3, y3, it3),
        ) implies has_diff(r, g.at(x3, y3, it3)) by {
        assert(before(x3, y3, it3, x, y, it));
    }
}

/// Merges offers into the map, in their order.
pub(crate) fn merge_diffs(vi: &mut ValueIterator, diffs: &Vec<Diff>)
    requires
        forall|k: int| 0 <= k < diffs@.len() ==> (#[trigger] diffs@[k]).0 < old(vi).states@.len(),
    ensures
        final(vi).has_states(*old(vi), merged(old(vi).states@, diffs@, diffs@.len() as int)),
{
    let ghost s0 = vi.states@;
    let mut k: usize = 0;
    while k < diffs.len()
        invariant
            k <= diffs.len(),
            s0 == old(vi).states@,
            vi.has_states(*old(vi), merged(s0, diffs@, k as int)),
            vi.states@.len() == s0.len(),
            forall|k: int| 0 <= k < diffs@.len() ==> (#[trigger] diffs@[k]).0 < s0.len(),
        decreases diffs.len() - k,
    {
        let (gi, v, a) = diffs[k];
        assert(diffs@[k as int] == (gi, v, a));
        let mut s: State = vi.states[gi as usize];
        let ghost before = vi.states@;
        if !s.final_state && v < s.total_cost {
            s.total_cost = v;
            s.optimal_action = if a >= 0 {
                Some(a as usize)
            } else {
                None
            };
            vi.states.set(gi as usize, s);
        }
        assert(vi.states@ =~= before.update(
            gi as int,
            merged_state(before[gi as int], v, a),
        ));
        k += 1;
    }
}

/// An action number survives packing, and so does its absence.
pub proof fn law_packed_actions_come_back(a: Option<usize>)
    requires
        a matches Some(x) ==> x <= 127,
    ensures
        unpacked(packed(a)) == a,
        a is None <==> packed(a) < 0,
        a matches Some(x) ==> packed(a) == x,
{
}

/// Merging a tile lowers values and raises none, touches no goal, and leaves every state that
/// the tile does not reach. Merging it again changes nothing.
pub proof fn law_merging_only_lowers(
    a: SchurArtifact,
    t: int,
    ts: Seq<State>,
    s: Seq<State>,
    i: int,
)
    requires
        0 <= i < s.len(),
    ensures
        ({
            let new = tile_merged(a, t, ts, s)[i];
            let reached = covers(a, t, i) && !ts[tile_at(a, t, i)].final_state && ts[tile_at(
                a,
                t,
                i,
            )].total_cost < REACH_THRESH;
            let v = ts[tile_at(a, t, i)].total_cost;
            &&& tile_merged(a, t, ts, s).len() == s.len()
            &&& new.total_cost <= s[i].total_cost
            &&& s[i].final_state || !reached ==> new == s[i]
            &&& reached && !s[i].final_state ==> new.total_cost <= v && (new == s[i]
                || new.total_cost == v)
            &&& reached && !s[i].final_state && v < s[i].total_cost ==> new.optimal_action
                == unpacked(packed(ts[tile_at(a, t, i)].optimal_action))
            &&& new == with_value(s[i], new.total_cost, new.optimal_action)
            &&& tile_merged(a, t, ts, tile_merged(a, t, ts, s))[i] == new
        }),
{
}

} // verus!
