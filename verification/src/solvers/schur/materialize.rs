//! From portal values to state values: tiles are solved with their portals pinned,
//! and what they give is merged into the map.
use vstd::prelude::*;

use crate::grid::lemma_index_bound;
use crate::model::{same_frame, same_place};
use crate::params::MAX_COST;
use crate::solvers::schur::artifact::{Portal, SchurArtifact};
use crate::solvers::schur::crossing::{
    base_tile, lemma_run_frame, local_x, local_y,
};
use crate::solvers::schur::domain::{
    domain_x, domain_y, edges_ok, fits, lemma_tile_coords, lies_on, portal_on, tile_grid,
    tile_model,
};
use crate::solvers::schur::patch::{pinned, with_patch, PATCH_LEN};
use crate::solvers::schur::query::{
    goal_on, goals_on, has_goal, in_domain, lay_goals, with_goals,
};
use crate::solvers::schur::sweep::{
    gs_solved, lemma_polished_bound, lemma_solved_bound, polished, TILE_MAX_ITER,
};
use crate::solvers::schur::tile::TileVi;
use crate::state::State;
use crate::value_iterator::ValueIterator;

verus! {

/// An artifact with values for its portals.
pub type Valued<'a> = (&'a SchurArtifact, &'a Vec<u64>);

/// `b` has the same tiling as `a`.
pub open spec fn same_tiling(a: SchurArtifact, b: SchurArtifact) -> bool {
    &&& b.tile == a.tile
    &&& b.halo == a.halo
    &&& b.nx == a.nx
    &&& b.ny == a.ny
    &&& b.nt == a.nt
    &&& b.tnx == a.tnx
    &&& b.tny == a.tny
}

/// Artifacts of the map of `vi` with the same tiling, each with values for its
/// portals.
pub open spec fn arts_ok(arts: Seq<Valued>, vi: ValueIterator) -> bool {
    &&& arts.len() > 0
    &&& forall|k: int|
        0 <= k < arts.len() ==> {
            &&& fits(*(#[trigger] arts[k]).0, vi)
            &&& arts[k].1@.len() == arts[k].0.portals@.len()
            &&& same_tiling(*arts[0].0, *arts[k].0)
        }
}

/// The tile's states after the first `n` portals of tile `t` have been pinned at
/// their values.
pub open spec fn with_portals(
    a: SchurArtifact,
    d: Seq<u64>,
    t: int,
    s: Seq<State>,
    n: int,
) -> Seq<State>
    decreases n,
{
    if n <= 0 {
        s
    } else {
        let before = with_portals(a, d, t, s, n - 1);
        let id = a.tiles@[t].portals@[n - 1] as int;
        let p = a.portals@[id];
        if d[id] >= MAX_COST {
            before
        } else {
            with_patch(
                before,
                PATCH_LEN as int,
                local_x(a, t, p),
                local_y(a, t, p),
                p.it as int,
                a.nt as int,
                d[id],
            )
        }
    }
}

/// The tile's states after the portals of the first `n` artifacts have been pinned.
pub open spec fn with_all_portals(
    arts: Seq<Valued>,
    t: int,
    s: Seq<State>,
    n: int,
) -> Seq<State>
    decreases n,
{
    if n <= 0 {
        s
    } else {
        let (a, d) = arts[n - 1];
        with_portals(
            *a,
            d@,
            t,
            with_all_portals(arts, t, s, n - 1),
            a.tiles@[t].portals@.len() as int,
        )
    }
}

/// One of the first `n` portals of tile `t` has a value.
pub open spec fn has_valued(a: SchurArtifact, d: Seq<u64>, t: int, n: int) -> bool {
    exists|i: int|
        0 <= i < n && d[(#[trigger] a.tiles@[t].portals@[i]) as int] < MAX_COST
}

/// One of the first `n` artifacts has a portal with a value in tile `t`.
pub open spec fn any_valued(arts: Seq<Valued>, t: int, n: int) -> bool {
    exists|k: int|
        0 <= k < n && has_valued(
            *(#[trigger] arts[k]).0,
            arts[k].1@,
            t,
            arts[k].0.tiles@[t].portals@.len() as int,
        )
}

/// `s2` has goals that `s1` has not.
pub open spec fn more_goals(s1: Seq<State>, s2: Seq<State>) -> bool {
    exists|i: int| 0 <= i < s2.len() && (#[trigger] s2[i]).final_state && !s1[i].final_state
}

/// `s` with only those goals that `s1` has too.
pub open spec fn keep_goals(s1: Seq<State>, s: Seq<State>) -> Seq<State> {
    Seq::new(
        s.len(),
        |i: int| State { final_state: s[i].final_state && s1[i].final_state, ..s[i] },
    )
}

/// A solved tile: its states, and how many values moved.
#[verifier::ext_equal]
pub struct Solution {
    pub states: Seq<State>,
    pub updates: int,
}

/// The tile before it is solved: the goals and portals are pinned.
pub open spec fn pinned_tile(
    vi: ValueIterator,
    arts: Seq<Valued>,
    f: Seq<(i32, i32, i32)>,
    t: int,
) -> Seq<State> {
    with_all_portals(
        arts,
        t,
        with_goals(*arts[0].0, t, base_tile(*arts[0].0, vi, t), f, f.len() as int),
        arts.len() as int,
    )
}

/// Tile `t`, solved with its goals and portals pinned; then, if portals were pinned,
/// with the portals free again, polished downwards.
pub open spec fn solution(
    vi: ValueIterator,
    arts: Seq<Valued>,
    f: Seq<(i32, i32, i32)>,
    t: int,
) -> Solution {
    let a = *arts[0].0;
    let m = tile_model(a, vi);
    let s1 = with_goals(a, t, base_tile(a, vi, t), f, f.len() as int);
    let s2 = pinned_tile(vi, arts, f, t);
    let g = gs_solved(m, None, s2);
    if more_goals(s1, s2) {
        let p = polished(m, keep_goals(s1, g.states));
        Solution { states: p.states, updates: g.updates + p.updates }
    } else {
        Solution { states: g.states, updates: g.updates }
    }
}

/// Something is pinned in tile `t`.
pub open spec fn has_pins(arts: Seq<Valued>, f: Seq<(i32, i32, i32)>, t: int) -> bool {
    has_goal(*arts[0].0, t, f) || any_valued(arts, t, arts.len() as int)
}

/// Pins the portals of tile `t`; returns whether one had a value.
fn pin_portals(
    art: &SchurArtifact,
    d: &Vec<u64>,
    tv: &mut TileVi,
    t: usize,
    Ghost(vi): Ghost<ValueIterator>,
) -> (r: bool)
    requires
        fits(*art, vi),
        d@.len() == art.portals@.len(),
        t < art.tiles@.len(),
        old(tv).wf(),
        old(tv).side == art.side_len(),
        old(tv).nt == art.nt,
    ensures
        final(tv).wf(),
        final(tv).side == old(tv).side,
        final(tv).nt == old(tv).nt,
        final(tv).states@ == with_portals(
            *art,
            d@,
            t as int,
            old(tv).states@,
            art.tiles@[t as int].portals@.len() as int,
        ),
        r == has_valued(
            *art,
            d@,
            t as int,
            art.tiles@[t as int].portals@.len() as int,
        ),
{
    let ghost a = *art;
    let ghost ti = t as int;
    let ghost s0 = tv.states@;
    proof {
        lemma_tile_coords(a, vi, ti);
        assert(edges_ok(a.tiles@[ti], a.portals@.len() as int));
    }
    let (x0, y0) = art.origin_of(t, Ghost(vi));
    let list: &Vec<u32> = &art.tiles[t].portals;
    let mut any: bool = false;
    let mut k: usize = 0;
    while k < list.len()
        invariant
            k <= list.len(),
            a == *art,
            ti == t,
            fits(a, vi),
            d@.len() == a.portals@.len(),
            *list == a.tiles@[ti].portals,
            edges_ok(a.tiles@[ti], a.portals@.len() as int),
            tv.wf(),
            tv.side == old(tv).side,
            tv.nt == old(tv).nt,
            tv.nt == a.nt,
            x0 == domain_x(a, ti),
            y0 == domain_y(a, ti),
            -a.halo <= x0 <= a.tnx * a.tile,
            -a.halo <= y0 <= a.tny * a.tile,
            tv.states@ == with_portals(a, d@, ti, s0, k as int),
            any == has_valued(a, d@, ti, k as int),
        decreases list.len() - k,
    {
        let id: usize = list[k] as usize;
        assert(a.tiles@[ti].portals@[k as int] < a.portals@.len());
        let dv: u64 = d[id];
        let p: Portal = art.portals[id];
        assert(portal_on(vi.grid(), a.portals@[id as int]));
        if dv < MAX_COST {
            tv.pin_patch(p.ix - x0, p.iy - y0, p.it, dv);
            assert(d@[a.tiles@[ti].portals@[k as int] as int] < MAX_COST);
            any = true;
        }
        k += 1;
    }
    any
}

/// Pinning changes neither places nor what is free, and takes no goal away.
pub open spec fn pins_only(s: Seq<State>, t: Seq<State>) -> bool {
    &&& s.len() == t.len()
    &&& forall|i: int|
        0 <= i < s.len() ==> {
            let (a, b) = (s[i], #[trigger] t[i]);
            &&& b == (State {
                total_cost: b.total_cost,
                final_state: b.final_state,
                optimal_action: b.optimal_action,
                ..a
            })
            &&& a.final_state ==> b.final_state
            &&& b.optimal_action == a.optimal_action || b.optimal_action is None
        }
}

proof fn lemma_pins_trans(a: Seq<State>, b: Seq<State>, c: Seq<State>)
    requires
        pins_only(a, b),
        pins_only(b, c),
    ensures
        pins_only(a, c),
{
    assert forall|i: int| 0 <= i < a.len() implies {
        let (x, y) = (a[i], #[trigger] c[i]);
        &&& y == (State {
            total_cost: y.total_cost,
            final_state: y.final_state,
            optimal_action: y.optimal_action,
            ..x
        })
        &&& x.final_state ==> y.final_state
        &&& y.optimal_action == x.optimal_action || y.optimal_action is None
    } by {
        assert(b[i] == (State {
            total_cost: b[i].total_cost,
            final_state: b[i].final_state,
            optimal_action: b[i].optimal_action,
            ..a[i]
        }));
    }
}

proof fn lemma_portals_pin_only(a: SchurArtifact, d: Seq<u64>, t: int, s: Seq<State>, n: int)
    ensures
        pins_only(s, with_portals(a, d, t, s, n)),
    decreases n,
{
    if n > 0 {
        lemma_portals_pin_only(a, d, t, s, n - 1);
        lemma_pins_trans(
            s,
            with_portals(a, d, t, s, n - 1),
            with_portals(a, d, t, s, n),
        );
    }
}

proof fn lemma_all_portals_pin_only(arts: Seq<Valued>, t: int, s: Seq<State>, n: int)
    ensures
        pins_only(s, with_all_portals(arts, t, s, n)),
    decreases n,
{
    if n > 0 {
        lemma_all_portals_pin_only(arts, t, s, n - 1);
        let (a, d) = arts[n - 1];
        let p = with_all_portals(arts, t, s, n - 1);
        lemma_portals_pin_only(*a, d@, t, p, a.tiles@[t].portals@.len() as int);
        lemma_pins_trans(s, p, with_all_portals(arts, t, s, n));
    }
}

proof fn lemma_goals_pin_only(
    a: SchurArtifact,
    t: int,
    s: Seq<State>,
    f: Seq<(i32, i32, i32)>,
    n: int,
    vi: ValueIterator,
)
    requires
        lies_on(a, vi),
        goals_on(vi.grid(), f),
        s.len() == tile_grid(a).len(),
        0 <= n <= f.len(),
    ensures
        pins_only(s, with_goals(a, t, s, f, n)),
    decreases n,
{
    if n > 0 {
        lemma_goals_pin_only(a, t, s, f, n - 1, vi);
        assert(goal_on(vi.grid(), f[n - 1]));
        if in_domain(a, t, f[n - 1]) {
            let g = tile_grid(a);
            lemma_index_bound(
                f[n - 1].0 - domain_x(a, t),
                f[n - 1].1 - domain_y(a, t),
                f[n - 1].2 as int,
                g.nx,
                g.ny,
                g.nt,
            );
        }
        lemma_pins_trans(s, with_goals(a, t, s, f, n - 1), with_goals(a, t, s, f, n));
    }
}

/// A tile before it is solved has no policies.
pub proof fn lemma_pinned_tile(
    vi: ValueIterator,
    arts: Seq<Valued>,
    f: Seq<(i32, i32, i32)>,
    t: int,
)
    requires
        arts_ok(arts, vi),
        goals_on(vi.grid(), f),
    ensures
        ({
            let a = *arts[0].0;
            let base = base_tile(a, vi, t);
            let s1 = with_goals(a, t, base, f, f.len() as int);
            let s2 = pinned_tile(vi, arts, f, t);
            &&& pins_only(base, s1)
            &&& pins_only(s1, s2)
            &&& pins_only(base, s2)
            &&& forall|i: int| 0 <= i < s2.len() ==> (#[trigger] s2[i]).optimal_action is None
        }),
{
    let a = *arts[0].0;
    let base = base_tile(a, vi, t);
    let s1 = with_goals(a, t, base, f, f.len() as int);
    assert(fits(*arts[0].0, vi));
    assert(0 <= tile_grid(a).len()) by (nonlinear_arith)
        requires
            0 <= a.side_len(),
            0 <= a.nt,
            tile_grid(a).len() == a.side_len() * a.side_len() * a.nt,
    ;
    lemma_goals_pin_only(a, t, base, f, f.len() as int, vi);
    lemma_all_portals_pin_only(arts, t, s1, arts.len() as int);
    lemma_pins_trans(base, s1, pinned_tile(vi, arts, f, t));
    let s2 = pinned_tile(vi, arts, f, t);
    assert forall|i: int| 0 <= i < s2.len() implies (#[trigger] s2[i]).optimal_action is None by {
        assert(base[i].optimal_action is None);
        assert(s1[i].optimal_action == base[i].optimal_action || s1[i].optimal_action is None);
    }
}

/// Solves tile `t` with its goals and portals pinned; nothing is solved, and the
/// result is false, where nothing is pinned.
pub(crate) fn solve_tile(
    src: &ValueIterator,
    arts: &[Valued],
    finals: &Vec<(i32, i32, i32)>,
    tv: &mut TileVi,
    t: usize,
) -> (r: (bool, u64))
    requires
        src.wf(),
        arts_ok(arts@, *src),
        goals_on(src.grid(), finals@),
        t < arts@[0].0.tiles@.len(),
        old(tv).wf(),
        old(tv).side == arts@[0].0.side_len(),
        old(tv).nt == arts@[0].0.nt,
    ensures
        final(tv).wf(),
        final(tv).side == old(tv).side,
        final(tv).nt == old(tv).nt,
        r.0 == has_pins(arts@, finals@, t as int),
        r.0 ==> final(tv).states@ == solution(*src, arts@, finals@, t as int).states,
        r.0 ==> r.1 == solution(*src, arts@, finals@, t as int).updates,
        !r.0 ==> r.1 == 0,
        r.0 ==> r.1 <= 2 * TILE_MAX_ITER * tile_grid(*arts@[0].0).len(),
        r.0 ==> tile_model(*arts@[0].0, *src).policy_ok(final(tv).states@),
{
    let ghost av = arts@;
    let ghost ti = t as int;
    let ghost f = finals@;
    assert(fits(*av[0].0, *src));
    let art: &SchurArtifact = arts[0].0;
    let ghost a = *art;
    let ghost m = tile_model(a, *src);
    let mut any: bool = lay_goals(src, art, finals, tv, t);
    let ghost base = base_tile(a, *src, ti);
    let ghost s1 = tv.states@;
    let n: usize = tv.states.len();
    let mut was_goal: Vec<bool> = Vec::new();
    let mut i: usize = 0;
    while i < n
        invariant
            i <= n,
            n == tv.states@.len(),
            s1 == tv.states@,
            was_goal@.len() == i,
            forall|j: int| 0 <= j < i ==> #[trigger] was_goal@[j] == s1[j].final_state,
        decreases n - i,
    {
        was_goal.push(tv.states[i].final_state);
        i += 1;
    }
    let ghost goal_here = any;
    let mut k: usize = 0;
    while k < arts.len()
        invariant
            k <= arts@.len(),
            av == arts@,
            arts_ok(av, *src),
            a == *av[0].0,
            t < a.tiles@.len(),
            ti == t,
            tv.wf(),
            tv.side == old(tv).side,
            tv.nt == old(tv).nt,
            tv.side == a.side_len(),
            tv.nt == a.nt,
            tv.states@ == with_all_portals(av, ti, s1, k as int),
            any == (goal_here || any_valued(av, ti, k as int)),
        decreases arts.len() - k,
    {
        let (b, d) = arts[k];
        assert(fits(*av[k as int].0, *src) && same_tiling(*av[0].0, *av[k as int].0));
        let p: bool = pin_portals(b, d, tv, t, Ghost(*src));
        if p {
            assert(has_valued(
                *av[k as int].0,
                av[k as int].1@,
                ti,
                av[k as int].0.tiles@[ti].portals@.len() as int,
            ));
            any = true;
        }
        k += 1;
    }
    if !any {
        return (false, 0);
    }
    let ghost s2 = tv.states@;
    proof {
        lemma_pinned_tile(*src, av, f, ti);
        assert(s2 == pinned_tile(*src, av, f, ti));
        assert(m.policy_ok(s2));
        lemma_solved_bound(m, None, s2);
        lemma_run_frame(m, None, s2, TILE_MAX_ITER as int);
    }
    let u: u64 = tv.solve_gs(&src.actions, None);
    let ghost g = gs_solved(m, None, s2);
    assert(tv.states@ == g.states);
    assert(n == g.states.len());
    let mut more: bool = false;
    let mut i: usize = 0;
    while i < n
        invariant
            i <= n,
            n == tv.states@.len(),
            n == s1.len(),
            n == s2.len(),
            n == g.states.len(),
            was_goal@.len() == n,
            tv.wf(),
            tv.side == old(tv).side,
            tv.nt == old(tv).nt,
            tv.grid() == m.grid,
            m.grid.located(g.states),
            same_frame(s2, g.states),
            m.policy_ok(g.states),
            m.policy_ok(tv.states@),
            forall|j: int| 0 <= j < n ==> #[trigger] was_goal@[j] == s1[j].final_state,
            forall|j: int|
                0 <= j < i ==> #[trigger] tv.states@[j] == keep_goals(s1, g.states)[j],
            forall|j: int| i <= j < n ==> #[trigger] tv.states@[j] == g.states[j],
            more == exists|j: int|
                0 <= j < i && (#[trigger] s2[j]).final_state && !s1[j].final_state,
        decreases n - i,
    {
        let mut s: State = tv.states[i];
        proof {
            assert(same_place(s2[i as int], g.states[i as int]));
            assert(m.grid.located_at(tv.states@[i as int], i as int));
            assert(was_goal@[i as int] == s1[i as int].final_state);
        }
        let ghost before = tv.states@;
        if s.final_state && !was_goal[i] {
            s.final_state = false;
            more = true;
            assert(s2[i as int].final_state && !s1[i as int].final_state);
            tv.states.set(i, s);
            proof {
                assert forall|j: int| 0 <= j < n implies m.grid.located_at(
                    #[trigger] tv.states@[j],
                    j,
                ) by {
                    assert(m.grid.located_at(before[j], j));
                }
                assert forall|j: int| 0 <= j < n implies ((#[trigger] tv.states@[j]).optimal_action matches Some(
                    x,
                ) ==> x < m.actions.len()) by {
                    assert(before[j].optimal_action matches Some(x) ==> x < m.actions.len());
                }
            }
        } else {
            assert(keep_goals(s1, g.states)[i as int] == g.states[i as int]);
        }
        i += 1;
    }
    if more {
        proof {
            assert(tv.states@ =~= keep_goals(s1, g.states));
            lemma_polished_bound(m, keep_goals(s1, g.states));
        }
        let v: u64 = tv.polish_decrease_only(&src.actions);
        proof {
            let l = m.grid.len();
            assert(2 * TILE_MAX_ITER * l == TILE_MAX_ITER * l + TILE_MAX_ITER * l)
                by (nonlinear_arith);
        }
        return (true, u + v);
    }
    proof {
        assert(tv.states@ =~= g.states) by {
            assert forall|j: int| 0 <= j < n implies tv.states@[j] == g.states[j] by {
                assert(same_place(s2[j], g.states[j]));
                assert(tv.states@[j] == keep_goals(s1, g.states)[j]);
                assert(!(s2[j].final_state && !s1[j].final_state));
            }
        }
    }
    proof {
        let l = m.grid.len();
        assert(2 * TILE_MAX_ITER * l == TILE_MAX_ITER * l + TILE_MAX_ITER * l) by (nonlinear_arith);
    }
    (true, u)
}

} // verus!
