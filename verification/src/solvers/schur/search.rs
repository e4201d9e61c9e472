//! Shortest walks over portals.
use vstd::multiset::Multiset;
use vstd::prelude::*;

use crate::params::MAX_COST;
use crate::solvers::schur::artifact::{Portal, SchurArtifact, TileEdges};
use crate::solvers::schur::crossing::{watch_list, watch_states};
use crate::solvers::schur::domain::{
    domain_x, domain_y, edges_ok, fits, lemma_tile_coords, lies_on, portal_on, tile_grid, tile_x,
    tile_y,
};
use crate::solvers::schur::heap::{Entry, MinHeap};
use crate::solvers::schur::patch::PatchAgg;
use crate::solvers::schur::query::{
    collect_finals, comes_from, cross_cost, first_covering, goal_on, goal_solved, goals, goals_on,
    has_goal, has_walk, in_domain, is_edge, is_seed, is_seed_tile, is_shortest, last_covering,
    law_covering_is_exact, lay_goals, mask_view, seed_value, seeded_at, slot, tiles_covering,
    usable, walk,
};
use crate::solvers::schur::sweep::watch_indices;
use crate::solvers::schur::tile::TileVi;
use crate::value_iterator::ValueIterator;

verus! {

/// Portal values and where they come from.
pub struct PortalDijkstra {
    /// A bound for all states of each portal's patch, `MAX_COST` if there is none.
    pub d: Vec<u64>,
    /// The next portal on the way to the goal; `u32::MAX` for first values.
    pub parent: Vec<u32>,
    /// The tile of the last crossing, or the goal's tile; `-1` without a value.
    pub via_tile: Vec<i32>,
}

proof fn lemma_cross_index(a: SchurArtifact, t: int, i: int, j: int)
    requires
        0 <= t < a.tiles@.len(),
        edges_ok(a.tiles@[t], a.portals@.len() as int),
        0 <= i < a.tiles@[t].portals@.len(),
        0 <= j < a.tiles@[t].portals@.len(),
    ensures
        0 <= i * (a.tiles@[t].portals@.len() as int) + j < a.tiles@[t].w@.len(),
        0 <= i * (a.tiles@[t].portals@.len() as int),
        0 <= slot(a, t, i) < a.portals@.len(),
        0 <= slot(a, t, j) < a.portals@.len(),
{
    let n = a.tiles@[t].portals@.len() as int;
    assert(0 <= i * n && i * n + j < n * n) by (nonlinear_arith)
        requires
            0 <= i,
            i + 1 <= n,
            0 <= j < n,
    ;
}

/// The value of the crossing's start is no more than that of its end and the
/// crossing together.
spec fn relaxed(a: SchurArtifact, d: Seq<u64>, t: int, i: int, j: int) -> bool {
    let v = cross_cost(a, t, i, j) + d[slot(a, t, j)];
    v >= MAX_COST || d[slot(a, t, i)] <= v
}

/// A search in progress.
struct Labels {
    d: Vec<u64>,
    parent: Vec<u32>,
    via: Vec<i32>,
    heap: MinHeap,
}

spec fn total(d: Seq<u64>) -> int
    decreases d.len(),
{
    if d.len() == 0 {
        0
    } else {
        total(d.drop_last()) + d.last()
    }
}

proof fn lemma_total_nonneg(d: Seq<u64>)
    ensures
        0 <= total(d),
    decreases d.len(),
{
    if d.len() > 0 {
        lemma_total_nonneg(d.drop_last());
    }
}

proof fn lemma_total_update(d: Seq<u64>, q: int, v: u64)
    requires
        0 <= q < d.len(),
    ensures
        total(d.update(q, v)) == total(d) - d[q] + v,
    decreases d.len(),
{
    let e = d.update(q, v);
    if q < d.len() - 1 {
        assert(e.drop_last() =~= d.drop_last().update(q, v));
        lemma_total_update(d.drop_last(), q, v);
    } else {
        assert(e.drop_last() =~= d.drop_last());
    }
}

impl Labels {
    /// Values are costs of walks, no worse than the first values, and known to come
    /// from where the labels say; every waiting entry is an upper bound.
    spec fn sound(
        self,
        a: SchurArtifact,
        mask: Option<Seq<bool>>,
        seed: Seq<u64>,
        seed_via: Seq<i32>,
    ) -> bool {
        let n = a.portals@.len();
        &&& self.d@.len() == n
        &&& self.parent@.len() == n
        &&& self.via@.len() == n
        &&& seed.len() == n
        &&& self.heap.wf()
        &&& forall|q: int| 0 <= q < n ==> #[trigger] self.d@[q] <= seed[q] <= MAX_COST
        &&& forall|e: Entry| #[trigger]
            self.heap@.contains(e) ==> e.1 < n && self.d@[e.1 as int] <= e.0 && e.0 < MAX_COST
        &&& forall|q: int|
            0 <= q < n && #[trigger] self.d@[q] < MAX_COST ==> has_walk(
                a,
                mask,
                seed,
                q,
                self.d@[q] as int,
            )
        &&& forall|q: int|
            0 <= q < n ==> if #[trigger] self.parent@[q] == u32::MAX {
                self.d@[q] == seed[q] && self.via@[q] == seed_via[q]
            } else {
                &&& self.parent@[q] < n
                &&& self.d@[q] < MAX_COST
                &&& at_least_from(
                    a,
                    mask,
                    self.d@,
                    q,
                    self.parent@[q] as int,
                    self.via@[q] as int,
                )
            }
    }

    /// Every crossing is relaxed or waits for its end, but those that end in `p`.
    spec fn settled_but(self, a: SchurArtifact, mask: Option<Seq<bool>>, p: int) -> bool {
        forall|t: int, i: int, j: int| #[trigger]
            is_edge(a, mask, t, i, j) && slot(a, t, j) != p ==> relaxed(a, self.d@, t, i, j)
                || self.heap@.contains((self.d@[slot(a, t, j)], slot(a, t, j) as u32))
    }

    /// Tries the crossing of tile `t` from its `i`-th to its `j`-th portal, whose
    /// value is `dp`.
    fn relax(
        &mut self,
        art: &SchurArtifact,
        t: usize,
        i: usize,
        j: usize,
        dp: u64,
        Ghost(mask): Ghost<Option<Seq<bool>>>,
        Ghost(seed): Ghost<Seq<u64>>,
        Ghost(seed_via): Ghost<Seq<i32>>,
    )
        requires
            art.portals@.len() < u32::MAX,
            art.tiles@.len() <= i32::MAX,
            forall|t: int|
                0 <= t < art.tiles@.len() ==> edges_ok(
                    #[trigger] art.tiles@[t],
                    art.portals@.len() as int,
                ),
            old(self).sound(*art, mask, seed, seed_via),
            old(self).settled_but(*art, mask, slot(*art, t as int, j as int)),
            t < art.tiles@.len(),
            usable(mask, t as int),
            i < art.tiles@[t as int].portals@.len(),
            j < art.tiles@[t as int].portals@.len(),
            dp < MAX_COST,
            old(self).d@[slot(*art, t as int, j as int)] == dp,
        ensures
            final(self).sound(*art, mask, seed, seed_via),
            final(self).settled_but(*art, mask, slot(*art, t as int, j as int)),
            is_edge(*art, mask, t as int, i as int, j as int) ==> relaxed(
                *art,
                final(self).d@,
                t as int,
                i as int,
                j as int,
            ),
            final(self).d@[slot(*art, t as int, j as int)] == dp,
            forall|q: int|
                0 <= q < art.portals@.len() ==> #[trigger] final(self).d@[q] <= old(self).d@[q],
            total(final(self).d@) < total(old(self).d@) || *final(self) == *old(self),
    {
        let e: &TileEdges = &art.tiles[t];
        let n: usize = e.portals.len();
        let ghost a = *art;
        let ghost (ti, ii, ji) = (t as int, i as int, j as int);
        let ghost p = slot(a, ti, ji);
        proof {
            assert(edges_ok(art.tiles@[ti], art.portals@.len() as int));
            lemma_cross_index(a, ti, ii, ji);
            assert(e.w.len() <= usize::MAX);
        }
        let w: u64 = e.w[i * n + j];
        if w >= MAX_COST {
            return ;
        }
        let cand: u64 = w.saturating_add(dp);
        if cand >= MAX_COST {
            return ;
        }
        let q: usize = e.portals[i] as usize;
        if cand >= self.d[q] {
            return ;
        }
        let ghost d0 = self.d@;
        let ghost h0 = self.heap@;
        let ghost par0 = self.parent@;
        let ghost via0 = self.via@;
        self.d.set(q, cand);
        self.parent.set(q, e.portals[j]);
        self.via.set(q, t as i32);
        self.heap.push((cand, q as u32));
        proof {
            let d1 = self.d@;
            lemma_total_update(d0, q as int, cand);
            assert(q != p);
            assert(is_edge(a, mask, ti, ii, ji));
            let k = choose|k: nat| #[trigger] walk(a, mask, seed, p, dp as int, k);
            assert(has_walk(a, mask, seed, p, d0[p] as int));
            assert(walk(a, mask, seed, q as int, cand as int, k + 1)) by {
                assert(walk(a, mask, seed, slot(a, ti, ji), cand - cross_cost(a, ti, ii, ji), k));
            }
            assert forall|r: int| 0 <= r < a.portals@.len() implies #[trigger] d1[r] <= seed[r]
                <= MAX_COST by {
                assert(d0[r] <= seed[r] <= MAX_COST);
            }
            assert forall|x: Entry| #[trigger] self.heap@.contains(x) implies x.1 < a.portals@.len()
                && d1[x.1 as int] <= x.0 && x.0 < MAX_COST by {
                if h0.contains(x) {
                    assert(d0[x.1 as int] <= x.0);
                } else {
                    assert(x == (cand, q as u32));
                }
            }
            assert forall|r: int| 0 <= r < a.portals@.len() && #[trigger] d1[r]
                < MAX_COST implies has_walk(a, mask, seed, r, d1[r] as int) by {
                if r != q {
                    assert(d0[r] < MAX_COST);
                }
            }
            assert forall|r: int| 0 <= r < a.portals@.len() implies if #[trigger] self.parent@[r]
                == u32::MAX {
                d1[r] == seed[r] && self.via@[r] == seed_via[r]
            } else {
                &&& self.parent@[r] < a.portals@.len()
                &&& d1[r] < MAX_COST
                &&& at_least_from(
                    a,
                    mask,
                    d1,
                    r,
                    self.parent@[r] as int,
                    self.via@[r] as int,
                )
            } by {
                if r == q {
                    assert(is_edge(a, mask, ti, ii, ji));
                    assert(at_least_from(a, mask, d1, r, p, ti));
                } else {
                    assert(par0[r] == self.parent@[r] && via0[r] == self.via@[r]);
                    if par0[r] != u32::MAX {
                        let (i2, j2) = choose|i2: int, j2: int| #[trigger]
                            is_edge(a, mask, via0[r] as int, i2, j2) && slot(
                                a,
                                via0[r] as int,
                                i2,
                            ) == r && slot(a, via0[r] as int, j2) == par0[r] && d0[r]
                                >= cross_cost(a, via0[r] as int, i2, j2) + d0[par0[r] as int];
                        assert(d1[par0[r] as int] <= d0[par0[r] as int]);
                    }
                }
            }
            assert forall|t2: int, i2: int, j2: int| #[trigger]
                is_edge(a, mask, t2, i2, j2) && slot(a, t2, j2) != p implies relaxed(
                a,
                d1,
                t2,
                i2,
                j2,
            ) || self.heap@.contains((d1[slot(a, t2, j2)], slot(a, t2, j2) as u32)) by {
                assert(edges_ok(art.tiles@[t2], art.portals@.len() as int));
                lemma_cross_index(a, t2, i2, j2);
                let r = slot(a, t2, j2);
                if r == q {
                    assert(self.heap@.contains((cand, q as u32)));
                } else {
                    assert(d1[r] == d0[r]);
                    assert(relaxed(a, d0, t2, i2, j2) || h0.contains((d0[r], r as u32)));
                    if h0.contains((d0[r], r as u32)) {
                        assert(self.heap@.contains((d0[r], r as u32)));
                    } else {
                        assert(d1[slot(a, t2, i2)] <= d0[slot(a, t2, i2)]);
                    }
                }
            }
        }
    }

    /// Tries all crossings that end in the portal `p`, whose value is `dp`.
    fn relax_into(
        &mut self,
        art: &SchurArtifact,
        p: usize,
        dp: u64,
        slots: &Vec<(usize, usize)>,
        mask: Option<&Vec<bool>>,
        Ghost(seed): Ghost<Seq<u64>>,
        Ghost(seed_via): Ghost<Seq<i32>>,
    )
        requires
            art.portals@.len() < u32::MAX,
            art.tiles@.len() <= i32::MAX,
            forall|t: int|
                0 <= t < art.tiles@.len() ==> edges_ok(
                    #[trigger] art.tiles@[t],
                    art.portals@.len() as int,
                ),
            mask matches Some(m) ==> m@.len() >= art.tiles@.len(),
            old(self).sound(*art, mask_view(mask), seed, seed_via),
            old(self).settled_but(*art, mask_view(mask), p as int),
            p < art.portals@.len(),
            old(self).d@[p as int] == dp,
            dp < MAX_COST,
            lists_slots(*art, slots@, p as int),
        ensures
            final(self).sound(*art, mask_view(mask), seed, seed_via),
            final(self).settled_but(*art, mask_view(mask), -1),
            total(final(self).d@) < total(old(self).d@) || *final(self) == *old(self),
    {
        let ghost a = *art;
        let ghost mv = mask_view(mask);
        let ghost l0 = *self;
        let mut k: usize = 0;
        while k < slots.len()
            invariant
                k <= slots.len(),
                a == *art,
                mv == mask_view(mask),
                l0 == *old(self),
                art.portals@.len() < u32::MAX,
                art.tiles@.len() <= i32::MAX,
                forall|t: int|
                    0 <= t < art.tiles@.len() ==> edges_ok(
                        #[trigger] art.tiles@[t],
                        art.portals@.len() as int,
                    ),
                mask matches Some(m) ==> m@.len() >= art.tiles@.len(),
                self.sound(a, mv, seed, seed_via),
                self.settled_but(a, mv, p as int),
                p < art.portals@.len(),
                self.d@[p as int] == dp,
                dp < MAX_COST,
                lists_slots(a, slots@, p as int),
                forall|c: int, i: int|
                    0 <= c < k && #[trigger] is_edge(
                        a,
                        mv,
                        slots@[c].0 as int,
                        i,
                        slots@[c].1 as int,
                    ) ==> relaxed(a, self.d@, slots@[c].0 as int, i, slots@[c].1 as int),
                total(self.d@) < total(l0.d@) || *self == l0,
            decreases slots.len() - k,
        {
            let (t, j) = slots[k];
            assert(slots@[k as int] == (t, j));
            let blocked: bool = match mask {
                None => false,
                Some(m) => !m[t],
            };
            if !blocked {
                let n: usize = art.tiles[t].portals.len();
                let mut i: usize = 0;
                while i < n
                    invariant
                        k < slots.len(),
                        i <= n,
                        a == *art,
                        mv == mask_view(mask),
                        l0 == *old(self),
                        t < art.tiles@.len(),
                        usable(mv, t as int),
                        slots@[k as int] == (t, j),
                        n == art.tiles@[t as int].portals@.len(),
                        j < n,
                        slot(a, t as int, j as int) == p,
                        art.portals@.len() < u32::MAX,
                        art.tiles@.len() <= i32::MAX,
                        forall|t: int|
                            0 <= t < art.tiles@.len() ==> edges_ok(
                                #[trigger] art.tiles@[t],
                                art.portals@.len() as int,
                            ),
                        self.sound(a, mv, seed, seed_via),
                        self.settled_but(a, mv, p as int),
                        p < art.portals@.len(),
                        self.d@[p as int] == dp,
                        dp < MAX_COST,
                        lists_slots(a, slots@, p as int),
                        forall|c: int, i: int|
                            0 <= c < k && #[trigger] is_edge(
                                a,
                                mv,
                                slots@[c].0 as int,
                                i,
                                slots@[c].1 as int,
                            ) ==> relaxed(a, self.d@, slots@[c].0 as int, i, slots@[c].1 as int),
                        forall|i2: int|
                            0 <= i2 < i && #[trigger] is_edge(a, mv, t as int, i2, j as int)
                                ==> relaxed(a, self.d@, t as int, i2, j as int),
                        total(self.d@) < total(l0.d@) || *self == l0,
                    decreases n - i,
                {
                    let ghost d0 = self.d@;
                    self.relax(art, t, i, j, dp, Ghost(mv), Ghost(seed), Ghost(seed_via));
                    proof {
                        assert forall|c: int, i2: int|
                            0 <= c < k && #[trigger] is_edge(
                                a,
                                mv,
                                slots@[c].0 as int,
                                i2,
                                slots@[c].1 as int,
                            ) implies relaxed(
                            a,
                            self.d@,
                            slots@[c].0 as int,
                            i2,
                            slots@[c].1 as int,
                        ) by {
                            let (t2, j2) = (slots@[c].0 as int, slots@[c].1 as int);
                            assert(edges_ok(art.tiles@[t2], art.portals@.len() as int));
                            lemma_cross_index(a, t2, i2, j2);
                            assert(relaxed(a, d0, t2, i2, j2));
                            assert(self.d@[slot(a, t2, i2)] <= d0[slot(a, t2, i2)]);
                        }
                        assert forall|i2: int|
                            0 <= i2 < i + 1 && #[trigger] is_edge(
                                a,
                                mv,
                                t as int,
                                i2,
                                j as int,
                            ) implies relaxed(a, self.d@, t as int, i2, j as int) by {
                            if i2 < i {
                                assert(edges_ok(art.tiles@[t as int], art.portals@.len() as int));
                                lemma_cross_index(a, t as int, i2, j as int);
                                assert(relaxed(a, d0, t as int, i2, j as int));
                                assert(self.d@[slot(a, t as int, i2)] <= d0[slot(
                                    a,
                                    t as int,
                                    i2,
                                )]);
                            }
                        }
                    }
                    i += 1;
                }
            }
            k += 1;
        }
        proof {
            assert forall|t: int, i: int, j: int| #[trigger]
                is_edge(a, mv, t, i, j) && slot(a, t, j) != -1 implies relaxed(
                a,
                self.d@,
                t,
                i,
                j,
            ) || self.heap@.contains((self.d@[slot(a, t, j)], slot(a, t, j) as u32)) by {
                if slot(a, t, j) == p {
                    assert(art.tiles.len() <= usize::MAX);
                    assert(art.tiles@[t].portals.len() <= usize::MAX);
                    assert(slots@.contains((t as usize, j as usize)));
                    let c = choose|c: int|
                        0 <= c < slots@.len() && slots@[c] == (t as usize, j as usize);
                    assert(is_edge(a, mv, slots@[c].0 as int, i, slots@[c].1 as int));
                }
            }
        }
    }
}

/// The portal `q` is worth at least what crossing the tile `t` to the portal `p`
/// costs.
spec fn at_least_from(
    a: SchurArtifact,
    mask: Option<Seq<bool>>,
    d: Seq<u64>,
    q: int,
    p: int,
    t: int,
) -> bool {
    exists|i: int, j: int| #[trigger]
        is_edge(a, mask, t, i, j) && slot(a, t, i) == q && slot(a, t, j) == p && d[q]
            >= cross_cost(a, t, i, j) + d[p]
}

/// `slots` are the places of the portal `p` in the tiles' lists.
spec fn lists_slots(a: SchurArtifact, slots: Seq<(usize, usize)>, p: int) -> bool {
    &&& forall|c: int|
        0 <= c < slots.len() ==> {
            let (t, j) = #[trigger] slots[c];
            &&& t < a.tiles@.len()
            &&& j < a.tiles@[t as int].portals@.len()
            &&& slot(a, t as int, j as int) == p
        }
    &&& forall|t: int, j: int|
        0 <= t < a.tiles@.len() && 0 <= j < a.tiles@[t].portals@.len() && #[trigger] slot(a, t, j)
            == p ==> slots.contains((t as usize, j as usize))
}

/// The places of the portals in the tiles' lists, up to place `n` of tile `t`.
spec fn lists_slots_upto(
    a: SchurArtifact,
    slots: Seq<(usize, usize)>,
    p: int,
    tn: int,
    n: int,
) -> bool {
    &&& forall|c: int|
        0 <= c < slots.len() ==> {
            let (t, j) = #[trigger] slots[c];
            &&& t < a.tiles@.len()
            &&& j < a.tiles@[t as int].portals@.len()
            &&& slot(a, t as int, j as int) == p
        }
    &&& forall|t: int, j: int|
        0 <= t < a.tiles@.len() && 0 <= j < a.tiles@[t].portals@.len() && #[trigger] slot(a, t, j)
            == p && (t < tn || t == tn && j < n) ==> slots.contains((t as usize, j as usize))
}

/// For each portal its places in the tiles' lists.
fn membership(art: &SchurArtifact) -> (r: Vec<Vec<(usize, usize)>>)
    requires
        forall|t: int|
            0 <= t < art.tiles@.len() ==> edges_ok(
                #[trigger] art.tiles@[t],
                art.portals@.len() as int,
            ),
    ensures
        r@.len() == art.portals@.len(),
        forall|p: int| 0 <= p < r@.len() ==> lists_slots(*art, (#[trigger] r@[p])@, p),
{
    let np: usize = art.portals.len();
    let mut out: Vec<Vec<(usize, usize)>> = Vec::new();
    let mut p: usize = 0;
    while p < np
        invariant
            p <= np,
            out@.len() == p,
            forall|k: int| 0 <= k < p ==> (#[trigger] out@[k])@.len() == 0,
        decreases np - p,
    {
        out.push(Vec::new());
        p += 1;
    }
    let mut t: usize = 0;
    while t < art.tiles.len()
        invariant
            t <= art.tiles.len(),
            np == art.portals@.len(),
            out@.len() == np,
            forall|t: int|
                0 <= t < art.tiles@.len() ==> edges_ok(
                    #[trigger] art.tiles@[t],
                    art.portals@.len() as int,
                ),
            forall|p: int|
                0 <= p < np ==> lists_slots_upto(*art, (#[trigger] out@[p])@, p, t as int, 0),
        decreases art.tiles.len() - t,
    {
        let e: &TileEdges = &art.tiles[t];
        let n: usize = e.portals.len();
        let mut j: usize = 0;
        while j < n
            invariant
                j <= n,
                t < art.tiles.len(),
                *e == art.tiles@[t as int],
                n == e.portals@.len(),
                np == art.portals@.len(),
                out@.len() == np,
                edges_ok(*e, np as int),
                forall|p: int|
                    0 <= p < np ==> lists_slots_upto(
                        *art,
                        (#[trigger] out@[p])@,
                        p,
                        t as int,
                        j as int,
                    ),
            decreases n - j,
        {
            let p: usize = e.portals[j] as usize;
            assert(e.portals@[j as int] < np);
            let ghost before = out@;
            out[p].push((t, j));
            proof {
                assert(out@[p as int]@ =~= before[p as int]@.push((t, j)));
                assert forall|r: int| 0 <= r < np implies lists_slots_upto(
                    *art,
                    (#[trigger] out@[r])@,
                    r,
                    t as int,
                    j + 1,
                ) by {
                    let s0 = before[r]@;
                    let s1 = out@[r]@;
                    assert(lists_slots_upto(*art, s0, r, t as int, j as int));
                    assert forall|t2: int, j2: int|
                        0 <= t2 < art.tiles@.len() && 0 <= j2 < art.tiles@[t2].portals@.len()
                            && #[trigger] slot(*art, t2, j2) == r && (t2 < t || t2 == t && j2 < j
                            + 1) implies s1.contains((t2 as usize, j2 as usize)) by {
                        if t2 == t && j2 == j {
                            assert(r == p);
                            assert(s1[s0.len() as int] == (t, j));
                        } else {
                            assert(s0.contains((t2 as usize, j2 as usize)));
                            let c = choose|c: int|
                                0 <= c < s0.len() && s0[c] == (t2 as usize, j2 as usize);
                            assert(s1[c] == s0[c]);
                        }
                    }
                    assert forall|c: int| 0 <= c < s1.len() implies {
                        let (t2, j2) = #[trigger] s1[c];
                        &&& t2 < art.tiles@.len()
                        &&& j2 < art.tiles@[t2 as int].portals@.len()
                        &&& slot(*art, t2 as int, j2 as int) == r
                    } by {
                        if c < s0.len() {
                            assert(s1[c] == s0[c]);
                        }
                    }
                }
            }
            j += 1;
        }
        t += 1;
    }
    out
}

/// Values that no crossing lowers are no more than the cost of any walk.
proof fn lemma_below_walks(
    a: SchurArtifact,
    mask: Option<Seq<bool>>,
    seed: Seq<u64>,
    d: Seq<u64>,
    q: int,
    v: int,
    k: nat,
)
    requires
        d.len() == a.portals@.len(),
        forall|t: int|
            0 <= t < a.tiles@.len() ==> edges_ok(#[trigger] a.tiles@[t], a.portals@.len() as int),
        forall|r: int| 0 <= r < d.len() ==> #[trigger] d[r] <= seed[r],
        forall|t: int, i: int, j: int| #[trigger]
            is_edge(a, mask, t, i, j) ==> relaxed(a, d, t, i, j),
        0 <= q < d.len(),
        walk(a, mask, seed, q, v, k),
    ensures
        d[q] <= v || v >= MAX_COST,
    decreases k,
{
    if k > 0 {
        let (t, i, j) = choose|t: int, i: int, j: int| #[trigger]
            is_edge(a, mask, t, i, j) && slot(a, t, i) == q && walk(
                a,
                mask,
                seed,
                slot(a, t, j),
                v - cross_cost(a, t, i, j),
                (k - 1) as nat,
            );
        assert(edges_ok(a.tiles@[t], a.portals@.len() as int));
        lemma_cross_index(a, t, i, j);
        lemma_below_walks(
            a,
            mask,
            seed,
            d,
            slot(a, t, j),
            v - cross_cost(a, t, i, j),
            (k - 1) as nat,
        );
        assert(relaxed(a, d, t, i, j));
    }
}

/// Shortest walks from every portal to the first values `d`.
fn shortest_walks(
    art: &SchurArtifact,
    mask: Option<&Vec<bool>>,
    d: Vec<u64>,
    from: Vec<i32>,
) -> (r: PortalDijkstra)
    requires
        art.portals@.len() < u32::MAX,
        art.tiles@.len() <= i32::MAX,
        forall|t: int|
            0 <= t < art.tiles@.len() ==> edges_ok(
                #[trigger] art.tiles@[t],
                art.portals@.len() as int,
            ),
        mask matches Some(m) ==> m@.len() >= art.tiles@.len(),
        d@.len() == art.portals@.len(),
        from@.len() == art.portals@.len(),
        forall|q: int| 0 <= q < d@.len() ==> #[trigger] d@[q] <= MAX_COST,
    ensures
        is_shortest(*art, mask_view(mask), d@, from@, r.d@, r.parent@, r.via_tile@),
{
    let ghost a = *art;
    let ghost mv = mask_view(mask);
    let ghost seed = d@;
    let ghost seed_via = from@;
    let np: usize = art.portals.len();
    let slots: Vec<Vec<(usize, usize)>> = membership(art);
    let mut l: Labels = Labels { d, parent: vec![u32::MAX; np], via: from, heap: MinHeap::new() };
    proof {
        assert forall|q: int| 0 <= q < np && #[trigger] l.d@[q] < MAX_COST implies has_walk(
            a,
            mv,
            seed,
            q,
            l.d@[q] as int,
        ) by {
            assert(walk(a, mv, seed, q, l.d@[q] as int, 0));
        }
        assert(l.sound(a, mv, seed, seed_via));
    }
    let mut i: usize = 0;
    while i < np
        invariant
            i <= np,
            np == a.portals@.len(),
            np < u32::MAX,
            l.sound(a, mv, seed, seed_via),
            l.d@ == seed,
            forall|q: int|
                0 <= q < i && #[trigger] l.d@[q] < MAX_COST ==> l.heap@.contains(
                    (l.d@[q], q as u32),
                ),
        decreases np - i,
    {
        let v: u64 = l.d[i];
        let ghost h0 = l.heap@;
        if v < MAX_COST {
            l.heap.push((v, i as u32));
        }
        proof {
            assert forall|e: Entry| #[trigger] l.heap@.contains(e) implies e.1 < np && l.d@[e.1 as int]
                <= e.0 && e.0 < MAX_COST by {
                if !h0.contains(e) {
                    assert(e == (v, i as u32));
                }
            }
            assert forall|q: int| 0 <= q < i + 1 && #[trigger] l.d@[q] < MAX_COST implies
                l.heap@.contains((l.d@[q], q as u32)) by {
                if q < i {
                    assert(h0.contains((l.d@[q], q as u32)));
                }
            }
        }
        i += 1;
    }
    proof {
        assert forall|t: int, i: int, j: int| #[trigger]
            is_edge(a, mv, t, i, j) && slot(a, t, j) != -1 implies relaxed(a, l.d@, t, i, j)
            || l.heap@.contains((l.d@[slot(a, t, j)], slot(a, t, j) as u32)) by {
            assert(edges_ok(art.tiles@[t], art.portals@.len() as int));
            lemma_cross_index(a, t, i, j);
            if l.d@[slot(a, t, j)] < MAX_COST {
            }
        }
    }
    let mut more: bool = true;
    while more
        invariant
            a == *art,
            mv == mask_view(mask),
            np == art.portals@.len(),
            art.portals@.len() < u32::MAX,
            art.tiles@.len() <= i32::MAX,
            forall|t: int|
                0 <= t < art.tiles@.len() ==> edges_ok(
                    #[trigger] art.tiles@[t],
                    art.portals@.len() as int,
                ),
            mask matches Some(m) ==> m@.len() >= art.tiles@.len(),
            slots@.len() == np,
            forall|p: int| 0 <= p < np ==> lists_slots(a, (#[trigger] slots@[p])@, p),
            l.sound(a, mv, seed, seed_via),
            l.settled_but(a, mv, -1),
            !more ==> l.heap.size() == 0 && l.heap@ =~= Multiset::<Entry>::empty(),
        decreases
            total(l.d@),
            l.heap.size(),
            if more {
                1int
            } else {
                0int
            },
    {
        let ghost l0 = l;
        proof {
            lemma_total_nonneg(l.d@);
        }
        match l.heap.pop() {
            None => {
                more = false;
            },
            Some((dp, p)) => {
                let p: usize = p as usize;
                proof {
                    assert(l0.heap@.contains((dp, p as u32)));
                    assert forall|e: Entry| #[trigger] l.heap@.contains(e) implies e.1 < np
                        && l.d@[e.1 as int] <= e.0 && e.0 < MAX_COST by {
                        assert(l0.heap@.contains(e));
                    }
                    assert(l.sound(a, mv, seed, seed_via));
                    assert forall|t: int, i: int, j: int| #[trigger]
                        is_edge(a, mv, t, i, j) && slot(a, t, j) != (if dp > l.d@[p as int] {
                            -1
                        } else {
                            p as int
                        }) implies relaxed(a, l.d@, t, i, j) || l.heap@.contains(
                        (l.d@[slot(a, t, j)], slot(a, t, j) as u32),
                    ) by {
                        assert(edges_ok(art.tiles@[t], art.portals@.len() as int));
                        lemma_cross_index(a, t, i, j);
                        let x = (l.d@[slot(a, t, j)], slot(a, t, j) as u32);
                        assert(relaxed(a, l0.d@, t, i, j) || l0.heap@.contains(x));
                        if l0.heap@.contains(x) {
                            assert(x != (dp, p as u32));
                            assert(l.heap@.contains(x));
                        }
                    }
                }
                if dp <= l.d[p] {
                    assert(l.settled_but(a, mv, p as int));
                    l.relax_into(art, p, dp, &slots[p], mask, Ghost(seed), Ghost(seed_via));
                    proof {
                        lemma_total_nonneg(l.d@);
                    }
                }
            },
        }
    }
    proof {
        let d = l.d@;
        assert forall|t: int, i: int, j: int| #[trigger] is_edge(a, mv, t, i, j) implies relaxed(
            a,
            d,
            t,
            i,
            j,
        ) by {
            assert(edges_ok(art.tiles@[t], art.portals@.len() as int));
            lemma_cross_index(a, t, i, j);
            assert(slot(a, t, j) != -1);
        }
        assert forall|q: int, v: int, k: nat|
            0 <= q < d.len() && #[trigger] walk(a, mv, seed, q, v, k) implies d[q] <= v || v
            >= MAX_COST by {
            assert forall|r: int| 0 <= r < d.len() implies #[trigger] d[r] <= seed[r] by {}
            lemma_below_walks(a, mv, seed, d, q, v, k);
        }
        assert forall|q: int| 0 <= q < d.len() implies if #[trigger] l.parent@[q] == u32::MAX {
            d[q] == seed[q] && l.via@[q] == seed_via[q]
        } else {
            &&& l.parent@[q] < d.len()
            &&& d[q] < MAX_COST
            &&& comes_from(a, mv, d, q, l.parent@[q] as int, l.via@[q] as int)
        } by {
            if l.parent@[q] != u32::MAX {
                let (p, t) = (l.parent@[q] as int, l.via@[q] as int);
                assert(at_least_from(a, mv, d, q, p, t));
                let (i, j) = choose|i: int, j: int| #[trigger]
                    is_edge(a, mv, t, i, j) && slot(a, t, i) == q && slot(a, t, j) == p && d[q]
                        >= cross_cost(a, t, i, j) + d[p];
                assert(relaxed(a, d, t, i, j));
                assert(is_edge(a, mv, t, i, j));
            }
        }
    }
    PortalDijkstra { d: l.d, parent: l.parent, via_tile: l.via }
}

/// The tiles that may have one of the goals in their domains.
fn goal_tiles(art: &SchurArtifact, finals: &Vec<(i32, i32, i32)>, Ghost(vi): Ghost<
    ValueIterator,
>) -> (r: Vec<bool>)
    requires
        lies_on(*art, vi),
        art.tiles@.len() == art.tnx * art.tny,
        goals_on(vi.grid(), finals@),
    ensures
        r@.len() == art.tiles@.len(),
        forall|t: int| 0 <= t < r@.len() && has_goal(*art, t, finals@) ==> #[trigger] r@[t],
{
    let n: usize = art.tiles.len();
    let mut out: Vec<bool> = vec![false; n];
    let mut k: usize = 0;
    while k < finals.len()
        invariant
            k <= finals.len(),
            lies_on(*art, vi),
            n == art.tnx * art.tny,
            goals_on(vi.grid(), finals@),
            out@.len() == n,
            forall|t: int, c: int|
                0 <= t < n && 0 <= c < k && in_domain(*art, t, #[trigger] finals@[c])
                    ==> #[trigger] out@[t],
        decreases finals.len() - k,
    {
        let (gx, gy, it) = finals[k];
        assert(goal_on(vi.grid(), finals@[k as int]));
        let (x0, x1, y0, y1) = tiles_covering(art, gx, gy);
        let mut ty: i32 = y0;
        while ty <= y1
            invariant
                k < finals.len(),
                lies_on(*art, vi),
                n == art.tnx * art.tny,
                out@.len() == n,
                finals@[k as int] == (gx, gy, it),
                x0 == first_covering(*art, gx as int),
                x1 == last_covering(*art, gx as int, art.tnx as int),
                y0 == first_covering(*art, gy as int),
                y1 == last_covering(*art, gy as int, art.tny as int),
                y0 <= ty,
                forall|t: int, c: int|
                    0 <= t < n && 0 <= c < k && in_domain(*art, t, #[trigger] finals@[c])
                        ==> #[trigger] out@[t],
                forall|t: int|
                    0 <= t < n && x0 <= tile_x(*art, t) <= x1 && y0 <= tile_y(*art, t) < ty
                        ==> #[trigger] out@[t],
            decreases y1 + 1 - ty,
        {
            let mut tx: i32 = x0;
            while tx <= x1
                invariant
                    k < finals.len(),
                    lies_on(*art, vi),
                    n == art.tnx * art.tny,
                    out@.len() == n,
                    finals@[k as int] == (gx, gy, it),
                    x0 == first_covering(*art, gx as int),
                    x1 == last_covering(*art, gx as int, art.tnx as int),
                    y0 == first_covering(*art, gy as int),
                    y1 == last_covering(*art, gy as int, art.tny as int),
                    y0 <= ty <= y1,
                    x0 <= tx,
                    forall|t: int, c: int|
                        0 <= t < n && 0 <= c < k && in_domain(*art, t, #[trigger] finals@[c])
                            ==> #[trigger] out@[t],
                    forall|t: int|
                        0 <= t < n && x0 <= tile_x(*art, t) <= x1 && y0 <= tile_y(*art, t) < ty
                            ==> #[trigger] out@[t],
                    forall|t: int|
                        0 <= t < n && x0 <= tile_x(*art, t) < tx && tile_y(*art, t) == ty
                            ==> #[trigger] out@[t],
                decreases x1 + 1 - tx,
            {
                proof {
                    let w = art.tnx as int;
                    assert(0 <= ty * w && ty * w + tx < w * art.tny) by (nonlinear_arith)
                        requires
                            0 <= ty < art.tny,
                            0 <= tx < w,
                    ;
                    assert forall|t: int|
                        0 <= t < n && tile_x(*art, t) == tx && tile_y(*art, t) == ty implies t
                        == ty * w + tx by {
                        vstd::arithmetic::div_mod::lemma_fundamental_div_mod(t, w);
                        assert(w * ty == ty * w) by (nonlinear_arith);
                    }
                }
                let i: usize = (ty * art.tnx + tx) as usize;
                out.set(i, true);
                tx += 1;
            }
            ty += 1;
        }
        proof {
            assert forall|t: int, c: int|
                0 <= t < n && 0 <= c < k + 1 && in_domain(
                    *art,
                    t,
                    #[trigger] finals@[c],
                ) implies #[trigger] out@[t] by {
                if c == k {
                    lemma_tile_coords(*art, vi, t);
                    law_covering_is_exact(*art, gx as int, art.tnx as int, tile_x(*art, t));
                    law_covering_is_exact(*art, gy as int, art.tny as int, tile_y(*art, t));
                }
            }
        }
        k += 1;
    }
    out
}

/// Lowers the first values `d` to those that tile `t`, solved for the goals, gives
/// its portals.
fn seed_from(
    vi: &ValueIterator,
    art: &SchurArtifact,
    tv: &TileVi,
    t: usize,
    agg: PatchAgg,
    d: &mut Vec<u64>,
    from: &mut Vec<i32>,
    Ghost(f): Ghost<Seq<(i32, i32, i32)>>,
    Ghost(mask): Ghost<Option<Seq<bool>>>,
)
    requires
        fits(*art, *vi),
        is_seed_tile(*art, f, mask, t as int),
        tv.wf(),
        tv.side == art.side_len(),
        tv.nt == art.nt,
        tv.states@ == goal_solved(*art, *vi, f, t as int),
        is_seed(*art, *vi, f, mask, agg, t as int, old(d)@, old(from)@),
    ensures
        is_seed(*art, *vi, f, mask, agg, t + 1, final(d)@, final(from)@),
{
    let ghost a = *art;
    let ghost ti = t as int;
    proof {
        lemma_tile_coords(a, *vi, ti);
        assert(edges_ok(a.tiles@[ti], a.portals@.len() as int));
    }
    let (x0, y0) = art.origin_of(t, Ghost(*vi));
    let list: &Vec<u32> = &art.tiles[t].portals;
    let n: usize = list.len();
    let mut k: usize = 0;
    proof {
        assert forall|p: int| 0 <= p < d@.len() implies (#[trigger] d@[p] == MAX_COST && from@[p]
            == -1) || seeded_at(a, *vi, f, mask, agg, ti + 1, p, d@[p], from@[p] as int) by {
            if !(d@[p] == MAX_COST && from@[p] == -1) {
                assert(seeded_at(a, *vi, f, mask, agg, ti, p, d@[p], from@[p] as int));
            }
        }
    }
    while k < n
        invariant
            k <= n,
            a == *art,
            ti == t,
            fits(a, *vi),
            is_seed_tile(a, f, mask, ti),
            *list == a.tiles@[ti].portals,
            n == list@.len(),
            edges_ok(a.tiles@[ti], a.portals@.len() as int),
            tv.wf(),
            tv.side == a.side_len(),
            tv.nt == a.nt,
            tv.grid() == tile_grid(a),
            tv.states@ == goal_solved(a, *vi, f, ti),
            x0 == domain_x(a, ti),
            y0 == domain_y(a, ti),
            -a.halo <= x0 <= a.tnx * a.tile,
            -a.halo <= y0 <= a.tny * a.tile,
            d@.len() == a.portals@.len(),
            from@.len() == a.portals@.len(),
            forall|t2: int, i: int|
                0 <= t2 < ti && is_seed_tile(a, f, mask, t2) && 0 <= i
                    < a.tiles@[t2].portals@.len() ==> d@[#[trigger] a.tiles@[t2].portals@[i] as int]
                    <= seed_value(a, *vi, f, agg, t2, a.tiles@[t2].portals@[i]),
            forall|i: int|
                0 <= i < k ==> d@[#[trigger] list@[i] as int] <= seed_value(
                    a,
                    *vi,
                    f,
                    agg,
                    ti,
                    list@[i],
                ),
            forall|p: int|
                0 <= p < d@.len() ==> (#[trigger] d@[p] == MAX_COST && from@[p] == -1)
                    || seeded_at(a, *vi, f, mask, agg, ti + 1, p, d@[p], from@[p] as int),
        decreases n - k,
    {
        let pid: u32 = list[k];
        assert(a.tiles@[ti].portals@[k as int] < a.portals@.len());
        let p: Portal = art.portals[pid as usize];
        assert(portal_on(vi.grid(), a.portals@[pid as int]));
        let v: u64 = tv.patch_max(p.ix - x0, p.iy - y0, p.it, agg);
        assert(v == seed_value(a, *vi, f, agg, ti, pid));
        let ghost d0 = d@;
        let ghost f0 = from@;
        if v < d[pid as usize] {
            d.set(pid as usize, v);
            from.set(pid as usize, t as i32);
            proof {
                assert(list@[k as int] == pid);
                assert forall|q: int| 0 <= q < d@.len() implies (#[trigger] d@[q] == MAX_COST
                    && from@[q] == -1) || seeded_at(
                    a,
                    *vi,
                    f,
                    mask,
                    agg,
                    ti + 1,
                    q,
                    d@[q],
                    from@[q] as int,
                ) by {
                    if q != pid {
                        assert((d0[q] == MAX_COST && f0[q] == -1) || seeded_at(
                            a,
                            *vi,
                            f,
                            mask,
                            agg,
                            ti + 1,
                            q,
                            d0[q],
                            f0[q] as int,
                        ));
                    } else {
                        assert(d0[q] <= MAX_COST) by {
                            assert((d0[q] == MAX_COST && f0[q] == -1) || seeded_at(
                                a,
                                *vi,
                                f,
                                mask,
                                agg,
                                ti + 1,
                                q,
                                d0[q],
                                f0[q] as int,
                            ));
                        }
                        assert(a.tiles@[ti].portals@.contains(q as u32));
                    }
                }
            }
        }
        proof {
            assert forall|q: int| 0 <= q < d@.len() implies #[trigger] d@[q] <= d0[q] by {}
            assert forall|t2: int, i: int|
                0 <= t2 < ti && is_seed_tile(a, f, mask, t2) && 0 <= i
                    < a.tiles@[t2].portals@.len() implies d@[#[trigger] a.tiles@[t2].portals@[i] as int]
                <= seed_value(a, *vi, f, agg, t2, a.tiles@[t2].portals@[i]) by {
                assert(edges_ok(a.tiles@[t2], a.portals@.len() as int));
                let q = a.tiles@[t2].portals@[i] as int;
                assert(d@[q] <= d0[q]);
            }
            assert forall|i: int| 0 <= i < k + 1 implies d@[#[trigger] list@[i] as int]
                <= seed_value(a, *vi, f, agg, ti, list@[i]) by {
                let q = list@[i] as int;
                assert(a.tiles@[ti].portals@[i] < a.portals@.len());
                assert(d@[q] <= d0[q]);
            }
        }
        k += 1;
    }
    proof {
        assert forall|t2: int, i: int|
            0 <= t2 < ti + 1 && is_seed_tile(a, f, mask, t2) && 0 <= i
                < a.tiles@[t2].portals@.len() implies d@[#[trigger] a.tiles@[t2].portals@[i] as int]
            <= seed_value(a, *vi, f, agg, t2, a.tiles@[t2].portals@[i]) by {
            if t2 == ti {
                assert(list@[i] == a.tiles@[t2].portals@[i]);
            }
        }
    }
}

/// A tile that is none of the seed tiles gives no first values.
proof fn lemma_no_seed(
    a: SchurArtifact,
    vi: ValueIterator,
    f: Seq<(i32, i32, i32)>,
    mask: Option<Seq<bool>>,
    agg: PatchAgg,
    t: int,
    d: Seq<u64>,
    from: Seq<i32>,
)
    requires
        is_seed(a, vi, f, mask, agg, t, d, from),
        !is_seed_tile(a, f, mask, t),
    ensures
        is_seed(a, vi, f, mask, agg, t + 1, d, from),
{
    assert forall|p: int| 0 <= p < d.len() implies (#[trigger] d[p] == MAX_COST && from[p] == -1)
        || seeded_at(a, vi, f, mask, agg, t + 1, p, d[p], from[p] as int) by {
        if !(d[p] == MAX_COST && from[p] == -1) {
            assert(seeded_at(a, vi, f, mask, agg, t, p, d[p], from[p] as int));
        }
    }
}

/// `r` holds the values of all portals for the goals of `vi`, over the tiles that
/// `mask` allows: the first values are those that the tiles around the goals give,
/// the others are shortest walks to them.
pub open spec fn searched(
    a: SchurArtifact,
    vi: ValueIterator,
    mask: Option<Seq<bool>>,
    agg: PatchAgg,
    r: PortalDijkstra,
) -> bool {
    exists|seed: Seq<u64>, seed_via: Seq<i32>|
        #![trigger is_shortest(a, mask, seed, seed_via, r.d@, r.parent@, r.via_tile@)]
        is_seed(a, vi, goals(vi), mask, agg, a.tiles@.len() as int, seed, seed_via) && is_shortest(
            a,
            mask,
            seed,
            seed_via,
            r.d@,
            r.parent@,
            r.via_tile@,
        )
}

/// Portal values over the tiles that `mask` allows, with patch values summed up by
/// `agg`.
pub fn portal_costs_with(
    vi: &ValueIterator,
    art: &SchurArtifact,
    mask: Option<&Vec<bool>>,
    agg: PatchAgg,
) -> (r: PortalDijkstra)
    requires
        vi.wf(),
        fits(*art, *vi),
        mask matches Some(m) ==> m@.len() >= art.tiles@.len(),
    ensures
        searched(*art, *vi, mask_view(mask), agg, r),
{
    let ghost a = *art;
    let ghost mv = mask_view(mask);
    let finals: Vec<(i32, i32, i32)> = collect_finals(vi);
    let ghost f = finals@;
    let np: usize = art.portals.len();
    let n: usize = art.tiles.len();
    let mut d: Vec<u64> = vec![MAX_COST; np];
    let mut from: Vec<i32> = vec![-1i32; np];
    let near: Vec<bool> = goal_tiles(art, &finals, Ghost(*vi));
    let mut tv: TileVi = TileVi::new(vi, art.side());
    let mut t: usize = 0;
    while t < n
        invariant
            t <= n,
            a == *art,
            mv == mask_view(mask),
            mask matches Some(m) ==> m@.len() >= art.tiles@.len(),
            vi.wf(),
            fits(a, *vi),
            f == finals@,
            f == goals(*vi),
            goals_on(vi.grid(), f),
            n == a.tiles@.len(),
            near@.len() == n,
            forall|t: int| 0 <= t < n && has_goal(a, t, f) ==> #[trigger] near@[t],
            tv.wf(),
            tv.side == a.side_len(),
            tv.nt == a.nt,
            is_seed(a, *vi, f, mv, agg, t as int, d@, from@),
        decreases n - t,
    {
        let allowed: bool = match mask {
            None => true,
            Some(m) => m[t],
        };
        if near[t] && art.tiles[t].portals.len() > 0 && allowed {
            let any: bool = lay_goals(vi, art, &finals, &mut tv, t);
            if any {
                assert(edges_ok(a.tiles@[t as int], a.portals@.len() as int));
                let watch: Vec<usize> = watch_states(
                    art,
                    &tv,
                    &art.tiles[t].portals,
                    t,
                    Ghost(*vi),
                );
                let ghost wo = watch_indices(Some(&watch));
                let ghost start = tv.states@;
                let u: u64 = tv.solve_gs(&vi.actions, Some(&watch));
                proof {
                    let list = a.tiles@[t as int].portals@;
                    assert(wo == Some(
                        watch_list(a, start, t as int, list, list.len() as int),
                    ));
                    assert(tv.states@ == goal_solved(a, *vi, f, t as int));
                }
                seed_from(vi, art, &tv, t, agg, &mut d, &mut from, Ghost(f), Ghost(mv));
            } else {
                proof {
                    lemma_no_seed(a, *vi, f, mv, agg, t as int, d@, from@);
                }
            }
        } else {
            proof {
                lemma_no_seed(a, *vi, f, mv, agg, t as int, d@, from@);
            }
        }
        t += 1;
    }
    proof {
        assert forall|q: int| 0 <= q < d@.len() implies #[trigger] d@[q] <= MAX_COST by {
            assert((d@[q] == MAX_COST && from@[q] == -1) || seeded_at(
                a,
                *vi,
                f,
                mv,
                agg,
                n as int,
                q,
                d@[q],
                from@[q] as int,
            ));
        }
    }
    let ghost seed = d@;
    let ghost seed_via = from@;
    let r: PortalDijkstra = shortest_walks(art, mask, d, from);
    assert(is_shortest(a, mv, seed, seed_via, r.d@, r.parent@, r.via_tile@));
    r
}

/// Portal values over the tiles that `mask` allows.
pub fn portal_costs_masked(
    vi: &ValueIterator,
    art: &SchurArtifact,
    mask: Option<&Vec<bool>>,
) -> (r: PortalDijkstra)
    requires
        vi.wf(),
        fits(*art, *vi),
        mask matches Some(m) ==> m@.len() >= art.tiles@.len(),
    ensures
        searched(*art, *vi, mask_view(mask), PatchAgg::Max, r),
{
    portal_costs_with(vi, art, mask, PatchAgg::Max)
}

/// `d` holds the values of all portals for the goals of `vi`.
pub open spec fn portal_values(
    a: SchurArtifact,
    vi: ValueIterator,
    agg: PatchAgg,
    d: Seq<u64>,
) -> bool {
    exists|r: PortalDijkstra| #[trigger] searched(a, vi, None, agg, r) && r.d@ == d
}

/// Portal values, with patches summed up by `agg`.
pub fn portal_costs_agg(vi: &ValueIterator, art: &SchurArtifact, agg: PatchAgg) -> (r: Vec<u64>)
    requires
        vi.wf(),
        fits(*art, *vi),
    ensures
        portal_values(*art, *vi, agg, r@),
        r@.len() == art.portals@.len(),
{
    let s: PortalDijkstra = portal_costs_with(vi, art, None, agg);
    let ghost s0 = s;
    assert(searched(*art, *vi, None, agg, s0) && s0.d@ == s.d@);
    s.d
}

/// Portal values.
pub fn portal_costs(vi: &ValueIterator, art: &SchurArtifact) -> (r: Vec<u64>)
    requires
        vi.wf(),
        fits(*art, *vi),
    ensures
        portal_values(*art, *vi, PatchAgg::Max, r@),
        r@.len() == art.portals@.len(),
{
    portal_costs_agg(vi, art, PatchAgg::Max)
}

} // verus!
