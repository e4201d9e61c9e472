//! Where the portals stand: on every free stretch of every line between two
//! tiles, at even distances, with a few headings each.
use vstd::prelude::*;

use crate::grid::{lemma_index_bound, lemma_index_injective, on_axis, on_grid};
use crate::model::Grid;
use crate::solvers::displacement::{displacement, larger, reach, Axis};
use crate::solvers::schur::artifact::{Portal, SchurArtifact, SchurConfig, TileEdges, PATCH_R};
use crate::solvers::schur::order::{
    all_stops, heading_stops, in_order, laid, lemma_laid_prefix, lemma_run_start,
    lemma_segment_stops_within, lines_stops, number_of, run_stops, segment_stops, segments_stops,
    with_number, Laid, Stop,
};
use crate::state::State;
use crate::value_iterator::ValueIterator;

verus! {

/// A portal state listed with a tile.
pub struct Site {
    pub tile: int,
    pub x: int,
    pub y: int,
    pub t: int,
}

/// The portal `p`, listed with tile `t`.
pub open spec fn site(t: int, p: Portal) -> Site {
    Site { tile: t, x: p.ix as int, y: p.iy as int, t: p.it as int }
}

/// How many tiles of side `tile` cover `n` cells.
pub open spec fn tiles_across(n: int, tile: int) -> int {
    larger((n + tile - 1) / tile, 1)
}

/// The geometry of a tiling.
pub struct Tiling {
    pub tile: int,
    pub tnx: int,
    pub tny: int,
    pub headings: int,
    pub spacing: int,
}

/// The tiling that `cfg` asks for on the lattice `g`.
pub open spec fn tiling(g: Grid, cfg: SchurConfig) -> Tiling {
    let tile = larger(cfg.tile as int, 1);
    Tiling {
        tile,
        tnx: tiles_across(g.nx, tile),
        tny: tiles_across(g.ny, tile),
        headings: if cfg.portal_thetas < 1 {
            1
        } else if cfg.portal_thetas > g.nt {
            g.nt
        } else {
            cfg.portal_thetas as int
        },
        spacing: larger(cfg.spacing as int, 1),
    }
}

/// Whether the cell `(x, y)` is free.
pub open spec fn cell_free(g: Grid, s: Seq<State>, x: int, y: int) -> bool {
    s[g.at(x, y, 0)].free
}

/// A line between two rows or columns of tiles, cut into one segment per tile: the
/// cells `lo..=hi` along the line.
pub struct Segment {
    pub vertical: bool,
    pub line: int,
    pub lo: int,
    pub hi: int,
}

/// The cell of a segment at position `p`.
pub open spec fn segment_cell(e: Segment, p: int) -> (int, int) {
    if e.vertical {
        (e.line, p)
    } else {
        (p, e.line)
    }
}

/// Whether the segment is free at position `p`.
pub open spec fn free_on(g: Grid, s: Seq<State>, e: Segment, p: int) -> bool {
    let c = segment_cell(e, p);
    cell_free(g, s, c.0, c.1)
}

/// `a..=b` is a longest free stretch of the segment.
pub open spec fn is_run(g: Grid, s: Seq<State>, e: Segment, a: int, b: int) -> bool {
    &&& e.lo <= a <= b <= e.hi
    &&& forall|p: int| a <= p <= b ==> #[trigger] free_on(g, s, e, p)
    &&& a == e.lo || !free_on(g, s, e, a - 1)
    &&& b == e.hi || !free_on(g, s, e, b + 1)
}

/// How many portals a free stretch of `len` cells has.
pub open spec fn run_count(len: int, spacing: int) -> int {
    larger((len + spacing - 1) / spacing, 1)
}

/// Position of the `i`-th portal on the free stretch `a..=b`.
pub open spec fn run_position(a: int, b: int, spacing: int, i: int) -> int {
    let len = b - a + 1;
    a + ((2 * i + 1) * len) / (2 * run_count(len, spacing))
}

/// A portal stands on the free stretch `a..=b` at position `p`.
pub open spec fn on_run(a: int, b: int, spacing: int, p: int) -> bool {
    exists|i: int|
        0 <= i < run_count(b - a + 1, spacing) && p == #[trigger] run_position(a, b, spacing, i)
}

/// A portal stands on the segment at position `p`.
pub open spec fn on_segment(g: Grid, s: Seq<State>, e: Segment, spacing: int, p: int) -> bool {
    exists|a: int, b: int| #[trigger] is_run(g, s, e, a, b) && on_run(a, b, spacing, p)
}

/// `t` is one of the `n` evenly spread headings of a portal position.
pub open spec fn is_portal_heading(nt: int, n: int, t: int) -> bool {
    exists|i: int| 0 <= i < n && t == #[trigger] nth_heading(nt, n, i)
}

/// The `i`-th of `n` evenly spread headings.
pub open spec fn nth_heading(nt: int, n: int, i: int) -> int {
    (i * nt) / n
}

/// The sites that one segment between the tiles `t1` and `t2` gives.
pub open spec fn segment_sites(
    g: Grid,
    s: Seq<State>,
    l: Tiling,
    e: Segment,
    t1: int,
    t2: int,
) -> Set<Site> {
    Set::new(
        |q: Site|
            {
                &&& q.tile == t1 || q.tile == t2
                &&& is_portal_heading(g.nt, l.headings, q.t)
                &&& exists|p: int| #[trigger]
                    on_segment(g, s, e, l.spacing, p) && segment_cell(e, p) == (q.x, q.y)
            },
    )
}

/// The segment of the vertical line left of tile column `k` that lies in tile row
/// `j`, or of the horizontal line below tile row `k` in tile column `j`.
pub open spec fn segment(g: Grid, l: Tiling, vertical: bool, k: int, j: int) -> Segment {
    let n = if vertical {
        g.ny
    } else {
        g.nx
    };
    Segment {
        vertical,
        line: k * l.tile,
        lo: j * l.tile,
        hi: if (j + 1) * l.tile <= n {
            (j + 1) * l.tile - 1
        } else {
            n - 1
        },
    }
}

/// The sites of the segment number `j` of line `k`.
pub open spec fn line_sites(
    g: Grid,
    s: Seq<State>,
    l: Tiling,
    vertical: bool,
    k: int,
    j: int,
) -> Set<Site> {
    let e = segment(g, l, vertical, k, j);
    if vertical {
        segment_sites(g, s, l, e, j * l.tnx + k - 1, j * l.tnx + k)
    } else {
        segment_sites(g, s, l, e, (k - 1) * l.tnx + j, k * l.tnx + j)
    }
}

/// There is such a segment.
pub open spec fn has_segment(l: Tiling, vertical: bool, k: int, j: int) -> bool {
    if vertical {
        1 <= k < l.tnx && 0 <= j < l.tny
    } else {
        1 <= k < l.tny && 0 <= j < l.tnx
    }
}

/// All portals of the tiling, each listed with the two tiles of its segment.
pub open spec fn all_sites(g: Grid, s: Seq<State>, l: Tiling) -> Set<Site> {
    Set::new(
        |q: Site|
            exists|vertical: bool, k: int, j: int| #[trigger]
                has_segment(l, vertical, k, j) && line_sites(g, s, l, vertical, k, j).contains(q),
    )
}

/// `portals` and the tiles' lists hold exactly the sites `q`: no portal twice, and
/// portal `k` in the list of tile `t` exactly where `t` has that portal.
pub open spec fn holds_sites(
    g: Grid,
    portals: Seq<Portal>,
    lists: Seq<Seq<u32>>,
    q: Set<Site>,
) -> bool {
    &&& portals.no_duplicates()
    &&& forall|k: int|
        0 <= k < portals.len() ==> on_grid(
            (#[trigger] portals[k]).ix as int,
            portals[k].iy as int,
            portals[k].it as int,
            g.nx,
            g.ny,
            g.nt,
        )
    &&& forall|k: int| 0 <= k < portals.len() ==> has_tile(#[trigger] portals[k], q)
    &&& forall|r: Site| #[trigger] q.contains(r) ==> 0 <= r.tile < lists.len() && exists|k: int|
        0 <= k < portals.len() && site(r.tile, #[trigger] portals[k]) == r
    &&& forall|t: int| 0 <= t < lists.len() ==> (#[trigger] lists[t]).no_duplicates()
    &&& forall|t: int, i: int|
        0 <= t < lists.len() && 0 <= i < lists[t].len() ==> (#[trigger] lists[t][i])
            < portals.len()
    &&& forall|t: int, k: int|
        0 <= t < lists.len() && 0 <= k < portals.len() ==> (lists[t].contains(k as u32)
            <==> q.contains(#[trigger] site(t, portals[k])))
}

/// Some tile lists the portal `p`.
pub open spec fn has_tile(p: Portal, q: Set<Site>) -> bool {
    exists|t: int| q.contains(#[trigger] site(t, p))
}

/// Portals placed so far.
struct Placement {
    portals: Vec<Portal>,
    /// For each state its portal, or `u32::MAX`.
    ids: Vec<u32>,
    lists: Vec<Vec<u32>>,
}

impl Placement {
    spec fn listed(self, g: Grid, q: Set<Site>) -> bool {
        &&& g.wf()
        &&& self.ids@.len() == g.len()
        &&& forall|k: int|
            0 <= k < self.portals@.len() ==> {
                let p = #[trigger] self.portals@[k];
                &&& on_grid(p.ix as int, p.iy as int, p.it as int, g.nx, g.ny, g.nt)
                &&& self.ids@[g.at(p.ix as int, p.iy as int, p.it as int)] == k
            }
        &&& self.portals@.len() <= g.len()
        &&& forall|i: int|
            0 <= i < self.ids@.len() && #[trigger] self.ids@[i] != u32::MAX ==> {
                let p = self.portals@[self.ids@[i] as int];
                &&& self.ids@[i] < self.portals@.len()
                &&& g.at(p.ix as int, p.iy as int, p.it as int) == i
            }
        &&& forall|r: Site| #[trigger] q.contains(r) ==> {
            &&& 0 <= r.tile < self.lists@.len()
            &&& on_grid(r.x, r.y, r.t, g.nx, g.ny, g.nt)
            &&& self.ids@[g.at(r.x, r.y, r.t)] != u32::MAX
        }
        &&& forall|t: int|
            0 <= t < self.lists@.len() ==> (#[trigger] self.lists@[t])@.no_duplicates()
        &&& forall|t: int, i: int|
            0 <= t < self.lists@.len() && 0 <= i < self.lists@[t]@.len() ==> (
            #[trigger] self.lists@[t]@[i]) < self.portals@.len()
        &&& forall|t: int, k: int|
            0 <= t < self.lists@.len() && 0 <= k < self.portals@.len() ==> (
            self.lists@[t]@.contains(k as u32) <==> q.contains(
                #[trigger] site(t, self.portals@[k]),
            ))
    }

    /// The portals and lists are those after the stops `st`.
    spec fn follows(self, st: Seq<Stop>) -> bool {
        laid(st, st.len() as int, self.lists@.len() as int) == (Laid {
            portals: self.portals@,
            lists: self.lists@.map_values(|v: Vec<u32>| v@),
        })
    }

    spec fn inv(self, g: Grid, q: Set<Site>) -> bool {
        &&& self.listed(g, q)
        &&& forall|k: int|
            0 <= k < self.portals@.len() ==> has_tile(#[trigger] self.portals@[k], q)
    }

    /// The portal at `(x, y, it)`, placed if it is new.
    fn intern(&mut self, src: &ValueIterator, x: i32, y: i32, it: i32, Ghost(q): Ghost<
        Set<Site>,
    >) -> (id: u32)
        requires
            src.wf(),
            old(self).listed(src.grid(), q),
            on_grid(
                x as int,
                y as int,
                it as int,
                src.grid().nx,
                src.grid().ny,
                src.grid().nt,
            ),
        ensures
            final(self).listed(src.grid(), q),
            final(self).lists@ == old(self).lists@,
            id == number_of(old(self).portals@, Portal { ix: x, iy: y, it }),
            final(self).portals@ == if old(self).portals@.contains(Portal { ix: x, iy: y, it }) {
                old(self).portals@
            } else {
                old(self).portals@.push(Portal { ix: x, iy: y, it })
            },
            id < final(self).portals@.len(),
            final(self).portals@[id as int] == (Portal { ix: x, iy: y, it }),
            final(self).portals@.len() >= old(self).portals@.len(),
            forall|k: int|
                0 <= k < old(self).portals@.len() ==> #[trigger] final(self).portals@[k]
                    == old(self).portals@[k],
            final(self).portals@.len() == old(self).portals@.len() || (id
                == old(self).portals@.len() && final(self).portals@.len()
                == old(self).portals@.len() + 1),
    {
        let ghost g = src.grid();
        let i: usize = src.to_index(x, y, it) as usize;
        let had: u32 = self.ids[i];
        if had != u32::MAX {
            proof {
                let p = self.portals@[had as int];
                lemma_index_injective(
                    x as int,
                    y as int,
                    it as int,
                    p.ix as int,
                    p.iy as int,
                    p.it as int,
                    g.nx,
                    g.nt,
                );
                let w = Portal { ix: x, iy: y, it };
                assert(p == w);
                assert(self.portals@.contains(w));
                let k = self.portals@.index_of(w);
                assert(self.portals@[k] == w);
                if k != had {
                    lemma_distinct_portals(g, self.portals@, self.ids@, k, had as int);
                }
            }
            return had;
        }
        let ghost p0 = self.portals@;
        let ghost i0 = self.ids@;
        let ghost n0 = p0.len() as int;
        let id: u32 = self.portals.len() as u32;
        let new: Portal = Portal { ix: x, iy: y, it };
        assert(!p0.contains(new)) by {
            if p0.contains(new) {
                let k = choose|k: int| 0 <= k < p0.len() && p0[k] == new;
                assert(self.ids@[g.at(p0[k].ix as int, p0[k].iy as int, p0[k].it as int)] == k);
            }
        }
        self.portals.push(new);
        self.ids.set(i, id);
        proof {
            assert forall|k: int| 0 <= k < self.portals@.len() implies {
                let p = #[trigger] self.portals@[k];
                &&& on_grid(p.ix as int, p.iy as int, p.it as int, g.nx, g.ny, g.nt)
                &&& self.ids@[g.at(p.ix as int, p.iy as int, p.it as int)] == k
            } by {
                if k < n0 {
                    let p = p0[k];
                    assert(i0[g.at(p.ix as int, p.iy as int, p.it as int)] == k);
                    lemma_index_bound(p.ix as int, p.iy as int, p.it as int, g.nx, g.ny, g.nt);
                }
            }
            assert forall|t: int, k: int|
                0 <= t < self.lists@.len() && 0 <= k < self.portals@.len() implies (
            self.lists@[t]@.contains(k as u32) <==> q.contains(
                #[trigger] site(t, self.portals@[k]),
            )) by {
                if k < n0 {
                    assert(self.lists@[t]@.contains(k as u32) <==> q.contains(site(t, p0[k])));
                } else {
                    assert(!q.contains(site(t, new)));
                    if self.lists@[t]@.contains(k as u32) {
                        let j = choose|j: int|
                            0 <= j < self.lists@[t]@.len() && self.lists@[t]@[j] == k as u32;
                        assert(self.lists@[t]@[j] < n0);
                    }
                }
            }
            lemma_portals_fit(g, self.portals@, self.ids@);
            assert forall|r: Site| #[trigger] q.contains(r) implies self.ids@[g.at(r.x, r.y, r.t)]
                != u32::MAX by {
                lemma_index_bound(r.x, r.y, r.t, g.nx, g.ny, g.nt);
            }
            assert forall|j: int|
                0 <= j < self.ids@.len() && #[trigger] self.ids@[j] != u32::MAX implies {
                let p = self.portals@[self.ids@[j] as int];
                &&& self.ids@[j] < self.portals@.len()
                &&& g.at(p.ix as int, p.iy as int, p.it as int) == j
            } by {
                if j != i {
                    assert(i0[j] == self.ids@[j]);
                }
            }
        }
        id
    }

    /// Lists portal `id` with tile `t`, unless it is there already.
    fn enlist(&mut self, t: usize, id: u32, Ghost(g): Ghost<Grid>, Ghost(q): Ghost<Set<Site>>)
        requires
            old(self).listed(g, q),
            t < old(self).lists@.len(),
            id < old(self).portals@.len(),
        ensures
            final(self).listed(g, q.insert(site(t as int, old(self).portals@[id as int]))),
            final(self).portals@ == old(self).portals@,
            final(self).lists@.len() == old(self).lists@.len(),
            final(self).lists@.map_values(|v: Vec<u32>| v@) == with_number(
                old(self).lists@.map_values(|v: Vec<u32>| v@),
                t as int,
                id as int,
            ),
    {
        let ghost l0 = self.lists@;
        let ghost p = self.portals@[id as int];
        let ghost q2 = q.insert(site(t as int, p));
        let there: bool = contains_u32(&self.lists[t], id);
        if !there {
            self.lists[t].push(id);
        }
        assert(self.lists@.map_values(|v: Vec<u32>| v@) =~= with_number(
            l0.map_values(|v: Vec<u32>| v@),
            t as int,
            id as int,
        ));
        proof {
            lemma_index_bound(p.ix as int, p.iy as int, p.it as int, g.nx, g.ny, g.nt);
            let l1 = self.lists@;
            if there {
                assert(q2 =~= q) by {
                    assert(q.contains(site(t as int, self.portals@[id as int])));
                }
            } else {
                assert(l1[t as int]@ =~= l0[t as int]@.push(id));
                assert forall|u: int| 0 <= u < l1.len() implies (#[trigger] l1[u])@.no_duplicates() by {
                    if u == t {
                        assert(l0[u]@.no_duplicates());
                    } else {
                        assert(l1[u] == l0[u]);
                    }
                }
                assert forall|u: int, i: int|
                    0 <= u < l1.len() && 0 <= i < l1[u]@.len() implies (#[trigger] l1[u]@[i])
                    < self.portals@.len() by {
                    if i < l0[u]@.len() {
                        assert(l0[u]@[i] < self.portals@.len());
                        if u != t {
                            assert(l1[u] == l0[u]);
                        }
                    } else {
                        assert(u == t);
                    }
                }
                assert forall|u: int, k: int|
                    0 <= u < l1.len() && 0 <= k < self.portals@.len() implies (
                l1[u]@.contains(k as u32) <==> q2.contains(
                    #[trigger] site(u, self.portals@[k]),
                )) by {
                    assert(l0[u]@.contains(k as u32) <==> q.contains(site(u, self.portals@[k])));
                    if u == t {
                        if k == id {
                            assert(l1[u]@[l0[u]@.len() as int] == k as u32);
                        } else {
                            lemma_distinct_portals(g, self.portals@, self.ids@, k, id as int);
                            if l1[u]@.contains(k as u32) {
                                let j = choose|j: int|
                                    0 <= j < l1[u]@.len() && l1[u]@[j] == k as u32;
                                assert(j < l0[u]@.len());
                                assert(l0[u]@[j] == k as u32);
                            }
                            if l0[u]@.contains(k as u32) {
                                let j = choose|j: int|
                                    0 <= j < l0[u]@.len() && l0[u]@[j] == k as u32;
                                assert(l1[u]@[j] == k as u32);
                            }
                        }
                    } else {
                        assert(l1[u] == l0[u]);
                    }
                }
            }
        }
    }

    /// Places one portal and lists it with two tiles.
    fn place(
        &mut self,
        src: &ValueIterator,
        x: i32,
        y: i32,
        it: i32,
        t1: usize,
        t2: usize,
        Ghost(q): Ghost<Set<Site>>,
        Ghost(st): Ghost<Seq<Stop>>,
    )
        requires
            src.wf(),
            old(self).inv(src.grid(), q),
            old(self).follows(st),
            on_grid(
                x as int,
                y as int,
                it as int,
                src.grid().nx,
                src.grid().ny,
                src.grid().nt,
            ),
            t1 < old(self).lists@.len(),
            t2 < old(self).lists@.len(),
        ensures
            final(self).inv(
                src.grid(),
                q.insert(
                    Site { tile: t1 as int, x: x as int, y: y as int, t: it as int },
                ).insert(Site { tile: t2 as int, x: x as int, y: y as int, t: it as int }),
            ),
            final(self).follows(
                st.push(
                    Stop {
                        t1: t1 as int,
                        t2: t2 as int,
                        x: x as int,
                        y: y as int,
                        t: it as int,
                    },
                ),
            ),
            final(self).lists@.len() == old(self).lists@.len(),
    {
        let ghost g = src.grid();
        let ghost p0 = self.portals@;
        let id: u32 = self.intern(src, x, y, it, Ghost(q));
        let ghost p = self.portals@[id as int];
        let ghost q1 = q.insert(site(t1 as int, p));
        self.enlist(t1, id, Ghost(g), Ghost(q));
        self.enlist(t2, id, Ghost(g), Ghost(q1));
        proof {
            let stop = Stop {
                t1: t1 as int,
                t2: t2 as int,
                x: x as int,
                y: y as int,
                t: it as int,
            };
            let more = st.push(stop);
            assert(more == st + seq![stop]);
            lemma_laid_prefix(st, seq![stop], st.len() as int, self.lists@.len() as int);
            assert(more[more.len() - 1] == stop);
            let q2 = q1.insert(site(t2 as int, p));
            assert forall|k: int| 0 <= k < self.portals@.len() implies has_tile(
                #[trigger] self.portals@[k],
                q2,
            ) by {
                if k == id {
                    assert(q2.contains(site(t1 as int, self.portals@[k])));
                } else {
                    assert(has_tile(p0[k], q));
                    let t = choose|t: int| q.contains(#[trigger] site(t, p0[k]));
                    assert(q2.contains(site(t, self.portals@[k])));
                }
            }
        }
    }

    /// Places the portals of one free stretch.
    fn place_run(
        &mut self,
        src: &ValueIterator,
        vertical: bool,
        line: i32,
        a: i32,
        b: i32,
        spacing: i32,
        headings: i32,
        t1: usize,
        t2: usize,
        Ghost(l): Ghost<Tiling>,
        Ghost(e): Ghost<Segment>,
        Ghost(q): Ghost<Set<Site>>,
        Ghost(st): Ghost<Seq<Stop>>,
    )
        requires
            src.wf(),
            src.grid().nt > 0,
            old(self).inv(src.grid(), q),
            old(self).follows(st),
            l.spacing == spacing,
            l.headings == headings,
            e.vertical == vertical,
            e.line == line,
            0 <= a <= b,
            1 <= spacing,
            1 <= headings <= src.grid().nt,
            on_axis(
                line as int,
                if vertical {
                    src.grid().nx
                } else {
                    src.grid().ny
                },
            ),
            b < (if vertical {
                src.grid().ny
            } else {
                src.grid().nx
            }),
            t1 < old(self).lists@.len(),
            t2 < old(self).lists@.len(),
        ensures
            final(self).inv(
                src.grid(),
                q.union(
                    run_sites(
                        src.grid(),
                        vertical,
                        line as int,
                        a as int,
                        b as int,
                        spacing as int,
                        headings as int,
                        t1 as int,
                        t2 as int,
                    ),
                ),
            ),
            final(self).follows(
                st + run_stops(
                    src.grid(),
                    l,
                    e,
                    a as int,
                    b as int,
                    t1 as int,
                    t2 as int,
                    run_count(b - a + 1, l.spacing),
                ),
            ),
            final(self).lists@.len() == old(self).lists@.len(),
    {
        let ghost g = src.grid();
        let nt: i32 = src.cell_num_t;
        let len: i64 = b as i64 - a as i64 + 1;
        let blocks: i64 = (len + spacing as i64 - 1) / spacing as i64;
        let n: i64 = if blocks >= 1 {
            blocks
        } else {
            1
        };
        proof {
            lemma_run_count(len as int, spacing as int);
        }
        let ghost (li, ai, bi, si, hi, u1, u2) = (
            line as int,
            a as int,
            b as int,
            spacing as int,
            headings as int,
            t1 as int,
            t2 as int,
        );
        let ghost mut done = Set::<Site>::empty();
        assert(q.union(done) =~= q);
        assert(st + run_stops(g, l, e, ai, bi, u1, u2, 0) =~= st);
        let mut i: i64 = 0;
        while i < n
            invariant
                0 <= i <= n,
                1 <= n <= len <= i32::MAX,
                len == b - a + 1,
                n == run_count(len as int, spacing as int),
                src.wf(),
                g == src.grid(),
                g.nt == nt,
                nt > 0,
                self.inv(g, q.union(done)),
                self.follows(st + run_stops(g, l, e, ai, bi, u1, u2, i as int)),
                l.spacing == spacing,
                l.headings == headings,
                e.vertical == vertical,
                e.line == line,
                self.lists@.len() == old(self).lists@.len(),
                0 <= a <= b,
                1 <= spacing,
                1 <= headings <= nt,
                (li, ai, bi, si, hi, u1, u2) == (
                    line as int,
                    a as int,
                    b as int,
                    spacing as int,
                    headings as int,
                    t1 as int,
                    t2 as int,
                ),
                on_axis(
                    li,
                    if vertical {
                        g.nx
                    } else {
                        g.ny
                    },
                ),
                b < (if vertical {
                    g.ny
                } else {
                    g.nx
                }),
                t1 < self.lists@.len(),
                t2 < self.lists@.len(),
                forall|r: Site| #[trigger]
                    done.contains(r) <==> {
                        &&& r.tile == u1 || r.tile == u2
                        &&& is_portal_heading(g.nt, hi, r.t)
                        &&& exists|k: int|
                            0 <= k < i && line_cell(
                                vertical,
                                li,
                                #[trigger] run_position(ai, bi, si, k),
                            ) == (r.x, r.y)
                    },
            decreases n - i,
        {
            proof {
                lemma_run_position(ai, bi, si, i as int);
                assert(0 <= (2 * i + 1) * len <= 0xffff_ffff * 0x7fff_ffff) by (nonlinear_arith)
                    requires
                        0 <= i,
                        2 * i + 1 <= 0xffff_ffff,
                        0 <= len <= 0x7fff_ffff,
                ;
            }
            let p: i32 = (a as i64 + ((2 * i + 1) * len) / (2 * n)) as i32;
            assert(p == run_position(ai, bi, si, i as int));
            let (x, y) = if vertical {
                (line, p)
            } else {
                (p, line)
            };
            let ghost before = done;
            let ghost mut part = Set::<Site>::empty();
            let mut h: i32 = 0;
            let ghost sofar = st + run_stops(g, l, e, ai, bi, u1, u2, i as int);
            let ghost c = line_cell(vertical, li, p as int);
            assert(sofar + heading_stops(c, g.nt, hi, u1, u2, 0) =~= sofar);
            assert(before.union(part) =~= before);
            while h < headings
                invariant
                    0 <= h <= headings,
                    1 <= headings <= nt,
                    src.wf(),
                    g == src.grid(),
                    g.nt == nt,
                    nt > 0,
                    hi == headings,
                    u1 == t1,
                    u2 == t2,
                    self.inv(g, q.union(before.union(part))),
                    self.follows(sofar + heading_stops(c, g.nt, hi, u1, u2, h as int)),
                    c == (x as int, y as int),
                    self.lists@.len() == old(self).lists@.len(),
                    on_axis(x as int, g.nx),
                    on_axis(y as int, g.ny),
                    t1 < self.lists@.len(),
                    t2 < self.lists@.len(),
                    forall|r: Site| #[trigger]
                        part.contains(r) <==> {
                            &&& r.tile == u1 || r.tile == u2
                            &&& r.x == x && r.y == y
                            &&& exists|k: int|
                                0 <= k < h && r.t == #[trigger] nth_heading(g.nt, hi, k)
                        },
                decreases headings - h,
            {
                proof {
                    lemma_nth_heading(g.nt, hi, h as int);
                    assert(0 <= h * nt <= 0x8000_0000 * 0x8000_0000) by (nonlinear_arith)
                        requires
                            0 <= h <= 0x8000_0000,
                            0 <= nt <= 0x8000_0000,
                    ;
                }
                let it: i32 = ((h as i64 * nt as i64) / headings as i64) as i32;
                assert(it == nth_heading(g.nt, hi, h as int));
                self.place(
                    src,
                    x,
                    y,
                    it,
                    t1,
                    t2,
                    Ghost(q.union(before.union(part))),
                    Ghost(sofar + heading_stops(c, g.nt, hi, u1, u2, h as int)),
                );
                proof {
                    assert((sofar + heading_stops(c, g.nt, hi, u1, u2, h as int)).push(
                        Stop { t1: u1, t2: u2, x: x as int, y: y as int, t: it as int },
                    ) =~= sofar + heading_stops(c, g.nt, hi, u1, u2, h + 1));
                    let s1 = Site { tile: u1, x: x as int, y: y as int, t: it as int };
                    let s2 = Site { tile: u2, x: x as int, y: y as int, t: it as int };
                    let next = part.insert(s1).insert(s2);
                    assert(q.union(before.union(part)).insert(s1).insert(s2) =~= q.union(
                        before.union(next),
                    ));
                    assert forall|r: Site| #[trigger] next.contains(r) <==> {
                        &&& r.tile == u1 || r.tile == u2
                        &&& r.x == x && r.y == y
                        &&& exists|k: int|
                            0 <= k < h + 1 && r.t == #[trigger] nth_heading(g.nt, hi, k)
                    } by {
                        if next.contains(r) {
                            if r == s1 || r == s2 {
                                assert(r.t == nth_heading(g.nt, hi, h as int));
                            }
                        }
                    }
                    part = next;
                }
                h += 1;
            }
            proof {
                assert(sofar + heading_stops(c, g.nt, hi, u1, u2, hi) =~= st + run_stops(
                    g,
                    l,
                    e,
                    ai,
                    bi,
                    u1,
                    u2,
                    i + 1,
                ));
                done = before.union(part);
                assert forall|r: Site| #[trigger] done.contains(r) <==> {
                    &&& r.tile == u1 || r.tile == u2
                    &&& is_portal_heading(g.nt, hi, r.t)
                    &&& exists|k: int|
                        0 <= k < i + 1 && line_cell(
                            vertical,
                            li,
                            #[trigger] run_position(ai, bi, si, k),
                        ) == (r.x, r.y)
                } by {
                    if part.contains(r) {
                        assert(line_cell(vertical, li, run_position(ai, bi, si, i as int)) == (
                            r.x,
                            r.y,
                        ));
                    }
                }
            }
            i += 1;
        }
        proof {
            assert(done =~= run_sites(g, vertical, li, ai, bi, si, hi, u1, u2)) by {
                assert forall|r: Site| done.contains(r) <==> run_sites(
                    g,
                    vertical,
                    li,
                    ai,
                    bi,
                    si,
                    hi,
                    u1,
                    u2,
                ).contains(r) by {
                    if done.contains(r) {
                        let k = choose|k: int|
                            0 <= k < n && line_cell(
                                vertical,
                                li,
                                #[trigger] run_position(ai, bi, si, k),
                            ) == (r.x, r.y);
                        assert(on_run(ai, bi, si, run_position(ai, bi, si, k)));
                    }
                }
            }
        }
    }

    /// Places the portals of one segment.
    fn place_segment(
        &mut self,
        src: &ValueIterator,
        vertical: bool,
        line: i32,
        lo: i32,
        hi: i32,
        spacing: i32,
        headings: i32,
        t1: usize,
        t2: usize,
        Ghost(l): Ghost<Tiling>,
        Ghost(q): Ghost<Set<Site>>,
        Ghost(st): Ghost<Seq<Stop>>,
    )
        requires
            src.wf(),
            src.grid().nt > 0,
            old(self).inv(src.grid(), q),
            old(self).follows(st),
            lo <= hi + 1,
            0 <= lo,
            1 <= spacing,
            1 <= headings <= src.grid().nt,
            l.spacing == spacing,
            l.headings == headings,
            on_axis(
                line as int,
                if vertical {
                    src.grid().nx
                } else {
                    src.grid().ny
                },
            ),
            hi < (if vertical {
                src.grid().ny
            } else {
                src.grid().nx
            }),
            t1 < old(self).lists@.len(),
            t2 < old(self).lists@.len(),
        ensures
            final(self).inv(
                src.grid(),
                q.union(
                    segment_sites(
                        src.grid(),
                        src.states@,
                        l,
                        Segment { vertical, line: line as int, lo: lo as int, hi: hi as int },
                        t1 as int,
                        t2 as int,
                    ),
                ),
            ),
            final(self).follows(
                st + segment_stops(
                    src.grid(),
                    src.states@,
                    l,
                    Segment { vertical, line: line as int, lo: lo as int, hi: hi as int },
                    t1 as int,
                    t2 as int,
                    hi + 1,
                ),
            ),
            final(self).lists@.len() == old(self).lists@.len(),
    {
        let ghost g = src.grid();
        let ghost s = src.states@;
        let ghost e = Segment { vertical, line: line as int, lo: lo as int, hi: hi as int };
        let ghost mut done = Set::<Site>::empty();
        assert(q.union(done) =~= q);
        let ghost (u1, u2) = (t1 as int, t2 as int);
        assert(st + segment_stops(g, s, l, e, u1, u2, lo as int) =~= st);
        let mut p: i32 = lo;
        while p <= hi
            invariant
                src.wf(),
                g == src.grid(),
                g.nt > 0,
                s == src.states@,
                e == (Segment { vertical, line: line as int, lo: lo as int, hi: hi as int }),
                self.inv(g, q.union(done)),
                self.follows(st + segment_stops(g, s, l, e, u1, u2, p as int)),
                (u1, u2) == (t1 as int, t2 as int),
                self.lists@.len() == old(self).lists@.len(),
                0 <= lo <= p,
                p <= hi + 1,
                1 <= spacing,
                1 <= headings <= g.nt,
                l.spacing == spacing,
                l.headings == headings,
                on_axis(
                    line as int,
                    if vertical {
                        g.nx
                    } else {
                        g.ny
                    },
                ),
                hi < (if vertical {
                    g.ny
                } else {
                    g.nx
                }),
                t1 < self.lists@.len(),
                t2 < self.lists@.len(),
                lo < p <= hi ==> !free_on(g, s, e, p - 1) || !free_on(g, s, e, p as int),
                forall|r: Site| #[trigger]
                    done.contains(r) <==> {
                        &&& r.tile == t1 || r.tile == t2
                        &&& is_portal_heading(g.nt, l.headings, r.t)
                        &&& exists|a: int, b: int, pos: int|
                            #![trigger is_run(g, s, e, a, b), segment_cell(e, pos)]
                            is_run(g, s, e, a, b) && b < p && on_run(a, b, l.spacing, pos)
                                && segment_cell(e, pos) == (r.x, r.y)
                    },
            decreases hi + 2 - p,
        {
            if !line_free(src, vertical, line, p) {
                proof {
                    assert(!free_on(g, s, e, p as int));
                    assert forall|r: Site| #[trigger] done.contains(r) <==> {
                        &&& r.tile == t1 || r.tile == t2
                        &&& is_portal_heading(g.nt, l.headings, r.t)
                        &&& exists|a: int, b: int, pos: int|
                            #![trigger is_run(g, s, e, a, b), segment_cell(e, pos)]
                            is_run(g, s, e, a, b) && b < p + 1 && on_run(a, b, l.spacing, pos)
                                && segment_cell(e, pos) == (r.x, r.y)
                    } by {}
                }
                p += 1;
                continue ;
            }
            let a: i32 = p;
            let mut b: i32 = p;
            while b < hi && line_free(src, vertical, line, b + 1)
                invariant
                    src.wf(),
                    g == src.grid(),
                    g.nt > 0,
                    s == src.states@,
                    e == (Segment { vertical, line: line as int, lo: lo as int, hi: hi as int }),
                    0 <= lo <= a <= b <= hi,
                    on_axis(
                        line as int,
                        if vertical {
                            g.nx
                        } else {
                            g.ny
                        },
                    ),
                    hi < (if vertical {
                        g.ny
                    } else {
                        g.nx
                    }),
                    forall|j: int| a <= j <= b ==> #[trigger] free_on(g, s, e, j),
                decreases hi - b,
            {
                b += 1;
            }
            proof {
                assert(a == lo || !free_on(g, s, e, a - 1));
                assert(b == hi || !free_on(g, s, e, b + 1));
                assert(is_run(g, s, e, a as int, b as int));
            }
            let ghost sofar = st + segment_stops(g, s, l, e, u1, u2, p as int);
            self.place_run(
                src,
                vertical,
                line,
                a,
                b,
                spacing,
                headings,
                t1,
                t2,
                Ghost(l),
                Ghost(e),
                Ghost(q.union(done)),
                Ghost(sofar),
            );
            proof {
                lemma_run_start(g, s, e, a as int, b as int);
                lemma_segment_stops_within(g, s, l, e, u1, u2, a as int, b as int);
                assert(sofar + run_stops(
                    g,
                    l,
                    e,
                    a as int,
                    b as int,
                    u1,
                    u2,
                    run_count(b - a + 1, l.spacing),
                ) =~= st + segment_stops(g, s, l, e, u1, u2, b + 1));
                let rs = run_sites(
                    g,
                    vertical,
                    line as int,
                    a as int,
                    b as int,
                    l.spacing,
                    l.headings,
                    t1 as int,
                    t2 as int,
                );
                let next = done.union(rs);
                assert(q.union(done).union(rs) =~= q.union(next));
                assert forall|r: Site| #[trigger] next.contains(r) <==> {
                    &&& r.tile == t1 || r.tile == t2
                    &&& is_portal_heading(g.nt, l.headings, r.t)
                    &&& exists|a: int, b2: int, pos: int|
                        #![trigger is_run(g, s, e, a, b2), segment_cell(e, pos)]
                        is_run(g, s, e, a, b2) && b2 < b + 1 && on_run(a, b2, l.spacing, pos)
                            && segment_cell(e, pos) == (r.x, r.y)
                } by {
                    if rs.contains(r) {
                        let pos = choose|pos: int|
                            on_run(a as int, b as int, l.spacing, pos) && #[trigger] line_cell(
                                vertical,
                                line as int,
                                pos,
                            ) == (r.x, r.y);
                        assert(segment_cell(e, pos) == (r.x, r.y));
                        assert(is_run(g, s, e, a as int, b as int));
                    }
                    if exists|a2: int, b2: int, pos: int|
                        #![trigger is_run(g, s, e, a2, b2), segment_cell(e, pos)]
                        is_run(g, s, e, a2, b2) && b2 < b + 1 && on_run(a2, b2, l.spacing, pos)
                            && segment_cell(e, pos) == (r.x, r.y) {
                        let (a2, b2, pos) = choose|a2: int, b2: int, pos: int|
                            #![trigger is_run(g, s, e, a2, b2), segment_cell(e, pos)]
                            is_run(g, s, e, a2, b2) && b2 < b + 1 && on_run(
                                a2,
                                b2,
                                l.spacing,
                                pos,
                            ) && segment_cell(e, pos) == (r.x, r.y);
                        if b2 >= a {
                            lemma_same_run(g, s, e, a as int, b as int, a2, b2);
                            assert(line_cell(vertical, line as int, pos) == (r.x, r.y));
                        }
                    }
                }
                done = next;
            }
            p = b + 1;
        }
        proof {
            let goal = segment_sites(g, s, l, e, t1 as int, t2 as int);
            assert(done =~= goal) by {
                assert forall|r: Site| done.contains(r) <==> goal.contains(r) by {
                    if done.contains(r) {
                        let (a, b, pos) = choose|a: int, b: int, pos: int|
                            #![trigger is_run(g, s, e, a, b), segment_cell(e, pos)]
                            is_run(g, s, e, a, b) && b < p && on_run(a, b, l.spacing, pos)
                                && segment_cell(e, pos) == (r.x, r.y);
                        assert(on_segment(g, s, e, l.spacing, pos));
                    }
                    if goal.contains(r) {
                        let pos = choose|pos: int| #[trigger]
                            on_segment(g, s, e, l.spacing, pos) && segment_cell(e, pos) == (
                                r.x,
                                r.y,
                            );
                        let (a, b) = choose|a: int, b: int| #[trigger]
                            is_run(g, s, e, a, b) && on_run(a, b, l.spacing, pos);
                        assert(b < p);
                        assert(segment_cell(e, pos) == (r.x, r.y));
                    }
                }
            }
        }
    }
}

/// The cell of a line at position `p`.
pub open spec fn line_cell(vertical: bool, line: int, p: int) -> (int, int) {
    if vertical {
        (line, p)
    } else {
        (p, line)
    }
}

/// The sites of one free stretch.
pub open spec fn run_sites(
    g: Grid,
    vertical: bool,
    line: int,
    a: int,
    b: int,
    spacing: int,
    headings: int,
    t1: int,
    t2: int,
) -> Set<Site> {
    Set::new(
        |r: Site|
            {
                &&& r.tile == t1 || r.tile == t2
                &&& is_portal_heading(g.nt, headings, r.t)
                &&& exists|p: int|
                    on_run(a, b, spacing, p) && #[trigger] line_cell(vertical, line, p) == (
                        r.x,
                        r.y,
                    )
            },
    )
}

/// Two longest free stretches that overlap are the same.
proof fn lemma_same_run(g: Grid, s: Seq<State>, e: Segment, a: int, b: int, a2: int, b2: int)
    requires
        is_run(g, s, e, a, b),
        is_run(g, s, e, a2, b2),
        a <= b2 <= b,
    ensures
        a2 == a,
        b2 == b,
{
    if b2 < b {
        assert(free_on(g, s, e, b2 + 1));
    }
    if a2 < a {
        assert(free_on(g, s, e, a - 1));
    }
    if a < a2 {
        assert(free_on(g, s, e, a2 - 1));
    }
}

proof fn lemma_run_count(len: int, spacing: int)
    requires
        1 <= len,
        1 <= spacing,
    ensures
        1 <= run_count(len, spacing) <= len,
        0 <= (len + spacing - 1) / spacing,
{
    let d = (len + spacing - 1) / spacing;
    vstd::arithmetic::div_mod::lemma_fundamental_div_mod(len + spacing - 1, spacing);
    vstd::arithmetic::div_mod::lemma_mod_bound(len + spacing - 1, spacing);
    assert(0 <= d <= len) by (nonlinear_arith)
        requires
            len + spacing - 1 == spacing * d + (len + spacing - 1) % spacing,
            0 <= (len + spacing - 1) % spacing < spacing,
            1 <= len,
            1 <= spacing,
    ;
}

/// Portals of a free stretch stand on it.
pub proof fn lemma_run_position(a: int, b: int, spacing: int, i: int)
    requires
        a <= b,
        1 <= spacing,
        0 <= i < run_count(b - a + 1, spacing),
    ensures
        a <= run_position(a, b, spacing, i) <= b,
{
    let len = b - a + 1;
    let n = run_count(len, spacing);
    lemma_run_count(len, spacing);
    let v = (2 * i + 1) * len;
    let d = v / (2 * n);
    vstd::arithmetic::div_mod::lemma_fundamental_div_mod(v, 2 * n);
    vstd::arithmetic::div_mod::lemma_mod_bound(v, 2 * n);
    assert(0 <= v && v < 2 * n * len) by (nonlinear_arith)
        requires
            v == (2 * i + 1) * len,
            0 <= i,
            2 * i + 1 < 2 * n,
            1 <= len,
    ;
    assert(0 <= d < len) by (nonlinear_arith)
        requires
            v == (2 * n) * d + v % (2 * n),
            0 <= v % (2 * n) < 2 * n,
            0 <= v < 2 * n * len,
            1 <= n,
    ;
}

/// Evenly spread headings are headings.
proof fn lemma_nth_heading(nt: int, n: int, i: int)
    requires
        0 <= i < n,
        0 < nt,
    ensures
        0 <= nth_heading(nt, n, i) < nt,
{
    let v = i * nt;
    let d = v / n;
    vstd::arithmetic::div_mod::lemma_fundamental_div_mod(v, n);
    vstd::arithmetic::div_mod::lemma_mod_bound(v, n);
    assert(0 <= v < n * nt) by (nonlinear_arith)
        requires
            v == i * nt,
            0 <= i < n,
            0 < nt,
    ;
    assert(0 <= d < nt) by (nonlinear_arith)
        requires
            v == n * d + v % n,
            0 <= v % n < n,
            0 <= v < n * nt,
    ;
}

/// Two different portals stand at different states.
proof fn lemma_distinct_portals(g: Grid, portals: Seq<Portal>, ids: Seq<u32>, i: int, j: int)
    requires
        forall|k: int|
            0 <= k < portals.len() ==> {
                let p = #[trigger] portals[k];
                ids[g.at(p.ix as int, p.iy as int, p.it as int)] == k
            },
        0 <= i < portals.len(),
        0 <= j < portals.len(),
        i != j,
    ensures
        portals[i] != portals[j],
{
    let p = portals[i];
    let q = portals[j];
    if p == q {
        assert(ids[g.at(p.ix as int, p.iy as int, p.it as int)] == i);
        assert(ids[g.at(q.ix as int, q.iy as int, q.it as int)] == j);
    }
}

/// There are no more portals than states.
proof fn lemma_portals_fit(g: Grid, portals: Seq<Portal>, ids: Seq<u32>)
    requires
        g.wf(),
        0 <= g.len(),
        forall|k: int|
            0 <= k < portals.len() ==> {
                let p = #[trigger] portals[k];
                &&& on_grid(p.ix as int, p.iy as int, p.it as int, g.nx, g.ny, g.nt)
                &&& ids[g.at(p.ix as int, p.iy as int, p.it as int)] == k
            },
    ensures
        portals.len() <= g.len(),
{
    let at = Seq::new(
        portals.len(),
        |k: int| g.at(portals[k].ix as int, portals[k].iy as int, portals[k].it as int),
    );
    assert forall|i: int, j: int| 0 <= i < at.len() && 0 <= j < at.len() && i != j implies at[i]
        != at[j] by {
        let p = portals[i];
        let q = portals[j];
        assert(ids[at[i]] == i);
        assert(ids[at[j]] == j);
    }
    assert(at.no_duplicates());
    at.unique_seq_to_set();
    vstd::set_lib::lemma_int_range(0, g.len());
    assert forall|v: int| at.to_set().contains(v) implies vstd::set_lib::set_int_range(
        0,
        g.len(),
    ).contains(v) by {
        let k = choose|k: int| 0 <= k < at.len() && at[k] == v;
        let p = portals[k];
        lemma_index_bound(p.ix as int, p.iy as int, p.it as int, g.nx, g.ny, g.nt);
    }
    vstd::set_lib::lemma_len_subset(at.to_set(), vstd::set_lib::set_int_range(0, g.len()));
}

/// Whether `v` holds `x`.
fn contains_u32(v: &Vec<u32>, x: u32) -> (r: bool)
    ensures
        r == v@.contains(x),
{
    let mut k: usize = 0;
    while k < v.len()
        invariant
            k <= v.len(),
            forall|j: int| 0 <= j < k ==> #[trigger] v@[j] != x,
        decreases v.len() - k,
    {
        if v[k] == x {
            assert(v@[k as int] == x);
            return true;
        }
        k += 1;
    }
    false
}

/// Whether the cell of a line at position `p` is free.
fn line_free(src: &ValueIterator, vertical: bool, line: i32, p: i32) -> (r: bool)
    requires
        src.wf(),
        src.grid().nt > 0,
        on_axis(
            line as int,
            if vertical {
                src.grid().nx
            } else {
                src.grid().ny
            },
        ),
        on_axis(
            p as int,
            if vertical {
                src.grid().ny
            } else {
                src.grid().nx
            },
        ),
    ensures
        r == ({
            let c = line_cell(vertical, line as int, p as int);
            cell_free(src.grid(), src.states@, c.0, c.1)
        }),
{
    let (x, y) = if vertical {
        (line, p)
    } else {
        (p, line)
    };
    let i: usize = src.to_index(x, y, 0) as usize;
    src.states[i].free
}

/// Lines between tiles, and the segments on them, lie on the map.
pub proof fn lemma_tile_start(n: int, tile: int, k: int)
    requires
        1 <= n,
        1 <= tile,
        0 <= k < tiles_across(n, tile),
    ensures
        0 <= k * tile < n,
        (k + 1) * tile < n + tile,
        1 <= tiles_across(n, tile) <= n,
{
    let d = (n + tile - 1) / tile;
    vstd::arithmetic::div_mod::lemma_fundamental_div_mod(n + tile - 1, tile);
    vstd::arithmetic::div_mod::lemma_mod_bound(n + tile - 1, tile);
    assert(1 <= d <= n) by (nonlinear_arith)
        requires
            n + tile - 1 == tile * d + (n + tile - 1) % tile,
            0 <= (n + tile - 1) % tile < tile,
            1 <= n,
            1 <= tile,
    ;
    assert(0 <= k * tile < n) by (nonlinear_arith)
        requires
            n + tile - 1 == tile * d + (n + tile - 1) % tile,
            0 <= (n + tile - 1) % tile < tile,
            0 <= k < d,
            1 <= tile,
    ;
    assert((k + 1) * tile == k * tile + tile) by (nonlinear_arith);
}

/// Sites of the segments that come before segment `(vertical, k, j)`, all vertical
/// ones first.
spec fn before_segment(
    g: Grid,
    s: Seq<State>,
    l: Tiling,
    vertical: bool,
    k: int,
    j: int,
    r: Site,
) -> bool {
    exists|v: bool, k2: int, j2: int| #[trigger]
        has_segment(l, v, k2, j2) && earlier(v, k2, j2, vertical, k, j) && line_sites(
            g,
            s,
            l,
            v,
            k2,
            j2,
        ).contains(r)
}

spec fn earlier(v: bool, k2: int, j2: int, vertical: bool, k: int, j: int) -> bool {
    if v == vertical {
        k2 < k || k2 == k && j2 < j
    } else {
        v
    }
}

proof fn lemma_next_segment(
    g: Grid,
    s: Seq<State>,
    l: Tiling,
    vertical: bool,
    k: int,
    j: int,
    done: Set<Site>,
)
    requires
        has_segment(l, vertical, k, j),
        forall|r: Site| #[trigger]
            done.contains(r) <==> before_segment(g, s, l, vertical, k, j, r),
    ensures
        forall|r: Site| #[trigger]
            done.union(line_sites(g, s, l, vertical, k, j)).contains(r) <==> before_segment(
                g,
                s,
                l,
                vertical,
                k,
                j + 1,
                r,
            ),
{
    let here = line_sites(g, s, l, vertical, k, j);
    assert forall|r: Site| #[trigger] done.union(here).contains(r) <==> before_segment(
        g,
        s,
        l,
        vertical,
        k,
        j + 1,
        r,
    ) by {
        if here.contains(r) {
            assert(has_segment(l, vertical, k, j));
        }
        if done.contains(r) {
            assert(before_segment(g, s, l, vertical, k, j, r));
        }
        if before_segment(g, s, l, vertical, k, j + 1, r) {
            let (v, k2, j2) = choose|v: bool, k2: int, j2: int| #[trigger]
                has_segment(l, v, k2, j2) && earlier(v, k2, j2, vertical, k, j + 1) && line_sites(
                    g,
                    s,
                    l,
                    v,
                    k2,
                    j2,
                ).contains(r);
            if !(v == vertical && k2 == k && j2 == j) {
                assert(earlier(v, k2, j2, vertical, k, j));
            }
        }
    }
}

/// Two orders with the same earlier segments.
proof fn lemma_same_before(
    g: Grid,
    s: Seq<State>,
    l: Tiling,
    v1: bool,
    k1: int,
    j1: int,
    v2: bool,
    k2: int,
    j2: int,
)
    requires
        forall|v: bool, k: int, j: int|
            has_segment(l, v, k, j) ==> #[trigger] earlier(v, k, j, v1, k1, j1) == earlier(
                v,
                k,
                j,
                v2,
                k2,
                j2,
            ),
    ensures
        forall|r: Site| #[trigger]
            before_segment(g, s, l, v1, k1, j1, r) == before_segment(g, s, l, v2, k2, j2, r),
{
    assert forall|r: Site| #[trigger] before_segment(g, s, l, v1, k1, j1, r) == before_segment(
        g,
        s,
        l,
        v2,
        k2,
        j2,
        r,
    ) by {
        if before_segment(g, s, l, v1, k1, j1, r) {
            let (v, k, j) = choose|v: bool, k: int, j: int| #[trigger]
                has_segment(l, v, k, j) && earlier(v, k, j, v1, k1, j1) && line_sites(
                    g,
                    s,
                    l,
                    v,
                    k,
                    j,
                ).contains(r);
            assert(earlier(v, k, j, v1, k1, j1) == earlier(v, k, j, v2, k2, j2));
        }
        if before_segment(g, s, l, v2, k2, j2, r) {
            let (v, k, j) = choose|v: bool, k: int, j: int| #[trigger]
                has_segment(l, v, k, j) && earlier(v, k, j, v2, k2, j2) && line_sites(
                    g,
                    s,
                    l,
                    v,
                    k,
                    j,
                ).contains(r);
            assert(earlier(v, k, j, v1, k1, j1) == earlier(v, k, j, v2, k2, j2));
        }
    }
}

impl Placement {
    /// Places the portals of all lines of one direction: `lines` of them (counted
    /// from one), with `segments` segments each.
    fn place_lines(
        &mut self,
        src: &ValueIterator,
        vertical: bool,
        tile: i32,
        tnx: i32,
        tny: i32,
        spacing: i32,
        headings: i32,
        Ghost(l): Ghost<Tiling>,
        Ghost(q): Ghost<Set<Site>>,
        Ghost(st): Ghost<Seq<Stop>>,
    ) -> (done: Ghost<Set<Site>>)
        requires
            src.wf(),
            src.grid().len() > 0,
            src.grid().nx > 0,
            src.grid().ny > 0,
            src.grid().nt > 0,
            old(self).inv(src.grid(), q),
            old(self).follows(st),
            old(self).lists@.len() == tnx * tny,
            l == (Tiling {
                tile: tile as int,
                tnx: tnx as int,
                tny: tny as int,
                headings: headings as int,
                spacing: spacing as int,
            }),
            1 <= tile,
            src.grid().nx + tile <= i32::MAX,
            src.grid().ny + tile <= i32::MAX,
            tnx == tiles_across(src.grid().nx, tile as int),
            tny == tiles_across(src.grid().ny, tile as int),
            1 <= spacing,
            1 <= headings <= src.grid().nt,
            forall|r: Site| #[trigger]
                q.contains(r) <==> before_segment(
                    src.grid(),
                    src.states@,
                    l,
                    vertical,
                    1,
                    0,
                    r,
                ),
        ensures
            final(self).inv(src.grid(), done@),
            final(self).follows(
                st + lines_stops(
                    src.grid(),
                    src.states@,
                    l,
                    vertical,
                    if vertical {
                        l.tnx
                    } else {
                        l.tny
                    },
                ),
            ),
            final(self).lists@.len() == old(self).lists@.len(),
            forall|r: Site| #[trigger]
                done@.contains(r) <==> before_segment(
                    src.grid(),
                    src.states@,
                    l,
                    vertical,
                    if vertical {
                        tnx as int
                    } else {
                        tny as int
                    },
                    0,
                    r,
                ),
    {
        let ghost g = src.grid();
        let ghost s = src.states@;
        let nx: i32 = src.cell_num_x;
        let ny: i32 = src.cell_num_y;
        let (lines, segments, across, along) = if vertical {
            (tnx, tny, nx, ny)
        } else {
            (tny, tnx, ny, nx)
        };
        proof {
            lemma_tile_start(g.nx, tile as int, 0);
            lemma_tile_start(g.ny, tile as int, 0);
        }
        let ghost mut done = q;
        assert(st + lines_stops(g, s, l, vertical, 1) =~= st);
        let mut k: i32 = 1;
        while k < lines
            invariant
                1 <= k <= lines,
                1 <= lines,
                src.wf(),
                g == src.grid(),
                s == src.states@,
                g.nx > 0,
                g.ny > 0,
                g.nt > 0,
                nx == g.nx,
                ny == g.ny,
                self.inv(g, done),
                self.follows(st + lines_stops(g, s, l, vertical, k as int)),
                self.lists@.len() == old(self).lists@.len(),
                self.lists@.len() == tnx * tny,
                (lines, segments, across, along) == if vertical {
                    (tnx, tny, nx, ny)
                } else {
                    (tny, tnx, ny, nx)
                },
                l == (Tiling {
                    tile: tile as int,
                    tnx: tnx as int,
                    tny: tny as int,
                    headings: headings as int,
                    spacing: spacing as int,
                }),
                1 <= tile,
                g.nx + tile <= i32::MAX,
                g.ny + tile <= i32::MAX,
                tnx == tiles_across(g.nx, tile as int),
                tny == tiles_across(g.ny, tile as int),
                1 <= tnx <= nx,
                1 <= tny <= ny,
                1 <= spacing,
                1 <= headings <= g.nt,
                forall|r: Site| #[trigger]
                    done.contains(r) <==> before_segment(g, s, l, vertical, k as int, 0, r),
            decreases lines - k,
        {
            proof {
                lemma_tile_start(across as int, tile as int, k as int);
            }
            let line: i32 = k * tile;
            let ghost sofar = st + lines_stops(g, s, l, vertical, k as int);
            assert(sofar + segments_stops(g, s, l, vertical, k as int, 0) =~= sofar);
            let mut j: i32 = 0;
            while j < segments
                invariant
                    0 <= j <= segments,
                    1 <= k < lines,
                    src.wf(),
                    g == src.grid(),
                    s == src.states@,
                    g.nx > 0,
                    g.ny > 0,
                    g.nt > 0,
                    nx == g.nx,
                    ny == g.ny,
                    line == k * tile,
                    0 <= line < across,
                    self.inv(g, done),
                    self.follows(
                        sofar + segments_stops(g, s, l, vertical, k as int, j as int),
                    ),
                    self.lists@.len() == old(self).lists@.len(),
                    self.lists@.len() == tnx * tny,
                    (lines, segments, across, along) == if vertical {
                        (tnx, tny, nx, ny)
                    } else {
                        (tny, tnx, ny, nx)
                    },
                    l == (Tiling {
                        tile: tile as int,
                        tnx: tnx as int,
                        tny: tny as int,
                        headings: headings as int,
                        spacing: spacing as int,
                    }),
                    1 <= tile,
                    g.nx + tile <= i32::MAX,
                    g.ny + tile <= i32::MAX,
                    tnx == tiles_across(g.nx, tile as int),
                    tny == tiles_across(g.ny, tile as int),
                    1 <= tnx <= nx,
                    1 <= tny <= ny,
                    1 <= spacing,
                    1 <= headings <= g.nt,
                    forall|r: Site| #[trigger]
                        done.contains(r) <==> before_segment(
                            g,
                            s,
                            l,
                            vertical,
                            k as int,
                            j as int,
                            r,
                        ),
                decreases segments - j,
            {
                proof {
                    lemma_tile_start(along as int, tile as int, j as int);
                }
                let lo: i32 = j * tile;
                let end: i32 = (j + 1) * tile;
                assert(end == lo + tile) by (nonlinear_arith)
                    requires
                        end == (j + 1) * tile,
                        lo == j * tile,
                ;
                let hi: i32 = if end <= along {
                    end - 1
                } else {
                    along - 1
                };
                proof {
                    lemma_tiles_index(
                        if vertical {
                            k as int
                        } else {
                            j as int
                        },
                        if vertical {
                            j as int
                        } else {
                            k as int
                        },
                        tnx as int,
                        tny as int,
                        nx as int,
                        ny as int,
                    );
                    lemma_tiles_index(
                        if vertical {
                            k - 1
                        } else {
                            j as int
                        },
                        if vertical {
                            j as int
                        } else {
                            k - 1
                        },
                        tnx as int,
                        tny as int,
                        nx as int,
                        ny as int,
                    );
                }
                let (t1, t2) = if vertical {
                    (j * tnx + (k - 1), j * tnx + k)
                } else {
                    ((k - 1) * tnx + j, k * tnx + j)
                };
                self.place_segment(
                    src,
                    vertical,
                    line,
                    lo,
                    hi,
                    spacing,
                    headings,
                    t1 as usize,
                    t2 as usize,
                    Ghost(l),
                    Ghost(done),
                    Ghost(sofar + segments_stops(g, s, l, vertical, k as int, j as int)),
                );
                proof {
                    let e = segment(g, l, vertical, k as int, j as int);
                    assert(sofar + segments_stops(g, s, l, vertical, k as int, j as int)
                        + segment_stops(g, s, l, e, t1 as int, t2 as int, hi + 1) =~= sofar
                        + segments_stops(g, s, l, vertical, k as int, j + 1));
                    assert(segment(g, l, vertical, k as int, j as int) == (Segment {
                        vertical,
                        line: line as int,
                        lo: lo as int,
                        hi: hi as int,
                    }));
                    lemma_next_segment(g, s, l, vertical, k as int, j as int, done);
                    done = done.union(line_sites(g, s, l, vertical, k as int, j as int));
                }
                j += 1;
            }
            proof {
                assert(sofar + segments_stops(g, s, l, vertical, k as int, segments as int) =~= st
                    + lines_stops(g, s, l, vertical, k + 1));
                lemma_same_before(
                    g,
                    s,
                    l,
                    vertical,
                    k as int,
                    segments as int,
                    vertical,
                    k + 1,
                    0,
                );
                assert forall|r: Site| #[trigger] done.contains(r) <==> before_segment(
                    g,
                    s,
                    l,
                    vertical,
                    k + 1,
                    0,
                    r,
                ) by {
                    assert(before_segment(g, s, l, vertical, k as int, segments as int, r)
                        == before_segment(g, s, l, vertical, k + 1, 0, r));
                }
            }
            k += 1;
        }
        Ghost(done)
    }
}

/// A tile's position lies among the tiles.
pub proof fn lemma_tiles_index(tx: int, ty: int, tnx: int, tny: int, nx: int, ny: int)
    requires
        0 <= tx < tnx <= nx,
        0 <= ty < tny <= ny,
        nx * ny <= i32::MAX,
    ensures
        0 <= ty * tnx <= ty * tnx + tx < tnx * tny <= i32::MAX,
{
    assert(0 <= ty * tnx && ty * tnx + tx < tnx * tny && tnx * tny <= nx * ny) by (nonlinear_arith)
        requires
            0 <= tx < tnx <= nx,
            0 <= ty < tny <= ny,
    ;
}

/// Margin of a tile's domain: as far as an action reaches, the patch radius, and
/// one cell more.
pub open spec fn halo_of(rx: int, ry: int) -> int {
    larger(larger(rx, ry), 1) + PATCH_R + 1
}

/// The portals of a tiling, and for each tile the list of its portals. The
/// crossing costs are still empty.
pub fn place_portals(src: &ValueIterator, cfg: &SchurConfig) -> (r: (
    SchurArtifact,
    Vec<Vec<u32>>,
))
    requires
        src.wf(),
        src.states@.len() > 0,
        src.grid().nx + larger(cfg.tile as int, 1) <= i32::MAX,
        src.grid().ny + larger(cfg.tile as int, 1) <= i32::MAX,
        halo_of(reach(src.model(), Axis::X), reach(src.model(), Axis::Y)) <= i32::MAX,
    ensures
        ({
            let g = src.grid();
            let l = tiling(g, *cfg);
            let a = r.0;
            &&& a.tile == l.tile
            &&& a.halo == halo_of(reach(src.model(), Axis::X), reach(src.model(), Axis::Y))
            &&& a.nx == g.nx
            &&& a.ny == g.ny
            &&& a.nt == g.nt
            &&& a.tnx == l.tnx
            &&& a.tny == l.tny
            &&& 1 <= l.tnx <= g.nx
            &&& 1 <= l.tny <= g.ny
            &&& a.portals@.len() <= g.len()
            &&& a.tiles@.len() == l.tnx * l.tny
            &&& forall|t: int|
                0 <= t < a.tiles@.len() ==> (#[trigger] a.tiles@[t]).portals@.len() == 0
                    && a.tiles@[t].w@.len() == 0
            &&& r.1@.len() == l.tnx * l.tny
            &&& holds_sites(
                g,
                a.portals@,
                r.1@.map_values(|v: Vec<u32>| v@),
                all_sites(g, src.states@, l),
            )
            &&& in_order(
                g,
                src.states@,
                l,
                a.portals@,
                r.1@.map_values(|v: Vec<u32>| v@),
            )
        }),
{
    let ghost g = src.grid();
    let ghost s = src.states@;
    let ghost l = tiling(g, *cfg);
    let nx: i32 = src.cell_num_x;
    let ny: i32 = src.cell_num_y;
    let nt: i32 = src.cell_num_t;
    proof {
        assert(g.nx > 0 && g.ny > 0 && g.nt > 0) by (nonlinear_arith)
            requires
                0 < g.nx * g.ny * g.nt,
                0 <= g.nx,
                0 <= g.ny,
                0 <= g.nt,
        ;
    }
    let (mx, my, mt) = displacement(src);
    let mut widest: i32 = if mx >= my {
        mx
    } else {
        my
    };
    if widest < 1 {
        widest = 1;
    }
    let halo: i32 = widest + PATCH_R + 1;
    let tile: i32 = if cfg.tile >= 1 {
        cfg.tile
    } else {
        1
    };
    proof {
        lemma_tile_start(g.nx, tile as int, 0);
        lemma_tile_start(g.ny, tile as int, 0);
        lemma_tiles_index(0, 0, l.tnx, l.tny, g.nx, g.ny);
    }
    let mut tnx: i32 = (nx + tile - 1) / tile;
    if tnx < 1 {
        tnx = 1;
    }
    let mut tny: i32 = (ny + tile - 1) / tile;
    if tny < 1 {
        tny = 1;
    }
    let headings: i32 = if cfg.portal_thetas < 1 {
        1
    } else if cfg.portal_thetas > nt {
        nt
    } else {
        cfg.portal_thetas
    };
    let spacing: i32 = if cfg.spacing >= 1 {
        cfg.spacing
    } else {
        1
    };
    let count: usize = (tnx * tny) as usize;
    let mut lists: Vec<Vec<u32>> = Vec::new();
    let mut tiles: Vec<TileEdges> = Vec::new();
    let mut t: usize = 0;
    while t < count
        invariant
            t <= count,
            lists@.len() == t,
            tiles@.len() == t,
            forall|u: int| 0 <= u < t ==> (#[trigger] lists@[u])@.len() == 0,
            forall|u: int|
                0 <= u < t ==> (#[trigger] tiles@[u]).portals@.len() == 0 && tiles@[u].w@.len()
                    == 0,
        decreases count - t,
    {
        lists.push(Vec::new());
        tiles.push(TileEdges { portals: Vec::new(), w: Vec::new() });
        t += 1;
    }
    let mut pl: Placement = Placement {
        portals: Vec::new(),
        ids: vec![u32::MAX; src.states.len()],
        lists,
    };
    let ghost none = Set::<Site>::empty();
    proof {
        assert(pl.inv(g, none));
        let empty = Seq::<Stop>::empty();
        assert(pl.follows(empty)) by {
            let lists = pl.lists@.map_values(|v: Vec<u32>| v@);
            assert forall|t: int| 0 <= t < lists.len() implies #[trigger] lists[t]
                == Seq::<u32>::empty() by {
                assert(pl.lists@[t]@ =~= Seq::<u32>::empty());
            }
            assert(laid(empty, 0, pl.lists@.len() as int).lists =~= lists);
            assert(pl.portals@ =~= Seq::<Portal>::empty());
            assert(laid(empty, 0, pl.lists@.len() as int) =~= (Laid {
                portals: pl.portals@,
                lists: pl.lists@.map_values(|v: Vec<u32>| v@),
            }));
        }
        assert forall|r: Site| #[trigger] none.contains(r) <==> before_segment(
            g,
            s,
            l,
            true,
            1,
            0,
            r,
        ) by {}
    }
    let Ghost(done) = pl.place_lines(
        src,
        true,
        tile,
        tnx,
        tny,
        spacing,
        headings,
        Ghost(l),
        Ghost(none),
        Ghost(Seq::<Stop>::empty()),
    );
    let ghost half = Seq::<Stop>::empty() + lines_stops(g, s, l, true, l.tnx);
    proof {
        lemma_same_before(g, s, l, true, tnx as int, 0, false, 1, 0);
        assert forall|r: Site| #[trigger] done.contains(r) <==> before_segment(
            g,
            s,
            l,
            false,
            1,
            0,
            r,
        ) by {
            assert(before_segment(g, s, l, true, tnx as int, 0, r) == before_segment(
                g,
                s,
                l,
                false,
                1,
                0,
                r,
            ));
        }
    }
    let Ghost(all) = pl.place_lines(
        src,
        false,
        tile,
        tnx,
        tny,
        spacing,
        headings,
        Ghost(l),
        Ghost(done),
        Ghost(half),
    );
    proof {
        assert(half + lines_stops(g, s, l, false, l.tny) =~= all_stops(g, s, l));
        assert(all =~= all_sites(g, s, l)) by {
            assert forall|r: Site| all.contains(r) <==> all_sites(g, s, l).contains(r) by {
                if all.contains(r) {
                    assert(before_segment(g, s, l, false, tny as int, 0, r));
                }
                if all_sites(g, s, l).contains(r) {
                    let (v, k, j) = choose|v: bool, k: int, j: int| #[trigger]
                        has_segment(l, v, k, j) && line_sites(g, s, l, v, k, j).contains(r);
                    assert(earlier(v, k, j, false, tny as int, 0));
                    assert(before_segment(g, s, l, false, tny as int, 0, r));
                }
            }
        }
        let ps = pl.portals@;
        assert(ps.no_duplicates()) by {
            assert forall|i: int, j: int|
                0 <= i < ps.len() && 0 <= j < ps.len() && i != j implies ps[i] != ps[j] by {
                lemma_distinct_portals(g, ps, pl.ids@, i, j);
            }
        }
        assert forall|r: Site| #[trigger] all.contains(r) implies 0 <= r.tile < pl.lists@.len()
            && exists|k: int| 0 <= k < ps.len() && site(r.tile, #[trigger] ps[k]) == r by {
            lemma_index_bound(r.x, r.y, r.t, g.nx, g.ny, g.nt);
            let k = pl.ids@[g.at(r.x, r.y, r.t)] as int;
            let p = ps[k];
            lemma_index_injective(
                r.x,
                r.y,
                r.t,
                p.ix as int,
                p.iy as int,
                p.it as int,
                g.nx,
                g.nt,
            );
            assert(site(r.tile, ps[k]) == r);
        }
        let lv = pl.lists@.map_values(|v: Vec<u32>| v@);
        assert(forall|t: int| 0 <= t < lv.len() ==> #[trigger] lv[t] == pl.lists@[t]@);
        assert(holds_sites(g, ps, lv, all));
    }
    let art = SchurArtifact { tile, halo, nx, ny, nt, tnx, tny, portals: pl.portals, tiles };
    (art, pl.lists)
}

/// The tiles are just enough to cover the map: the last one is needed, and there is one at
/// least.
pub proof fn law_tiles_cover_the_map(n: int, tile: int)
    requires
        0 <= n,
        1 <= tile,
    ensures
        tiles_across(n, tile) >= 1,
        tiles_across(n, tile) * tile >= n,
        n > 0 ==> (tiles_across(n, tile) - 1) * tile < n,
{
    let t = n + tile - 1;
    vstd::arithmetic::div_mod::lemma_fundamental_div_mod(t, tile);
    vstd::arithmetic::div_mod::lemma_mod_bound(t, tile);
    let c = t / tile;
    assert(c * tile == tile * c && (c - 1) * tile == tile * c - tile) by (nonlinear_arith);
    assert(n > 0 ==> c >= 1) by (nonlinear_arith)
        requires
            t == tile * c + t % tile,
            t % tile < tile,
            t == n + tile - 1,
            1 <= tile,
    ;
    assert(c >= 0) by (nonlinear_arith)
        requires
            t == tile * c + t % tile,
            t % tile < tile,
            0 <= t,
            1 <= tile,
    ;
    if n == 0 {
        assert(1 * tile == tile && 0 * tile == 0);
    }
}

/// The portals of a free stretch lie on it, in order, at most the spacing and one cell apart,
/// the first at most half the spacing from the stretch's start; there are just as many as the
/// spacing asks for.
pub proof fn law_portals_lie_on_their_run(a: int, b: int, spacing: int, i: int)
    requires
        a <= b,
        1 <= spacing,
        0 <= i < run_count(b - a + 1, spacing),
    ensures
        a <= run_position(a, b, spacing, i) <= b,
        run_count(b - a + 1, spacing) * spacing >= b - a + 1,
        (run_count(b - a + 1, spacing) - 1) * spacing < b - a + 1,
        run_position(a, b, spacing, i) < run_position(a, b, spacing, i + 1),
        run_position(a, b, spacing, i + 1) - run_position(a, b, spacing, i) <= spacing + 1,
        2 * (run_position(a, b, spacing, 0) - a) <= spacing,
{
    let len = b - a + 1;
    let n = run_count(len, spacing);
    let t = len + spacing - 1;
    vstd::arithmetic::div_mod::lemma_fundamental_div_mod(t, spacing);
    vstd::arithmetic::div_mod::lemma_mod_bound(t, spacing);
    let c = t / spacing;
    assert(c >= 1) by (nonlinear_arith)
        requires
            t == spacing * c + t % spacing,
            t % spacing < spacing,
            t >= spacing,
            1 <= spacing,
    ;
    assert(n == c);
    assert(n * spacing == spacing * n && (n - 1) * spacing == spacing * n - spacing)
        by (nonlinear_arith);
    assert(n <= len) by (nonlinear_arith)
        requires
            (n - 1) * spacing < len,
            1 <= spacing,
            1 <= n,
    ;
    let d = 2 * n;
    lemma_middle(len, n, i);
    lemma_middle(len, n, i + 1);
    lemma_middle(len, n, 0);
    let (p, q, z) = (
        ((2 * i + 1) * len) / d,
        ((2 * (i + 1) + 1) * len) / d,
        ((2 * 0 + 1) * len) / d,
    );
    assert((2 * (i + 1) + 1) * len == (2 * i + 1) * len + 2 * len) by (nonlinear_arith);
    assert(0 <= p < len) by (nonlinear_arith)
        requires
            p * d <= (2 * i + 1) * len < (p + 1) * d,
            d == 2 * n,
            0 <= i,
            i + 1 <= n,
            0 < len,
            0 < n,
    ;
    let u = (2 * i + 1) * len;
    assert(p < q) by (nonlinear_arith)
        requires
            p * d <= u < (p + 1) * d,
            q * d <= u + 2 * len < (q + 1) * d,
            d == 2 * n,
            n <= len,
            0 < n,
    ;
    assert(q - p <= spacing + 1) by (nonlinear_arith)
        requires
            p * d <= u < (p + 1) * d,
            q * d <= u + 2 * len < (q + 1) * d,
            d == 2 * n,
            len <= n * spacing,
            0 < n,
    ;
    assert(2 * z <= spacing) by (nonlinear_arith)
        requires
            z * d <= (2 * 0 + 1) * len,
            d == 2 * n,
            len <= n * spacing,
            0 < n,
    ;
}

proof fn lemma_middle(len: int, n: int, i: int)
    requires
        0 < n,
    ensures
        ({
            let q = ((2 * i + 1) * len) / (2 * n);
            q * (2 * n) <= (2 * i + 1) * len < (q + 1) * (2 * n)
        }),
{
    let (x, d) = ((2 * i + 1) * len, 2 * n);
    vstd::arithmetic::div_mod::lemma_fundamental_div_mod(x, d);
    vstd::arithmetic::div_mod::lemma_mod_bound(x, d);
    let q = x / d;
    assert(q * d <= x < (q + 1) * d) by (nonlinear_arith)
        requires
            x == d * q + x % d,
            0 <= x % d,
            x % d < d,
    ;
}

/// The headings of the portals are spread evenly over the circle, the first at zero.
pub proof fn law_portal_headings_are_even(nt: int, n: int, i: int)
    requires
        1 <= n <= nt,
        0 <= i < n,
    ensures
        nth_heading(nt, n, 0) == 0,
        0 <= nth_heading(nt, n, i) < nt,
        n * nth_heading(nt, n, i) <= i * nt < n * nth_heading(nt, n, i) + n,
        nth_heading(nt, n, i) < nth_heading(nt, n, i + 1),
{
    let (x, y) = (i * nt, (i + 1) * nt);
    assert(y == x + nt) by (nonlinear_arith)
        requires
            x == i * nt,
            y == (i + 1) * nt,
    ;
    vstd::arithmetic::div_mod::lemma_fundamental_div_mod(x, n);
    vstd::arithmetic::div_mod::lemma_mod_bound(x, n);
    vstd::arithmetic::div_mod::lemma_fundamental_div_mod(y, n);
    vstd::arithmetic::div_mod::lemma_mod_bound(y, n);
    let (p, q) = (x / n, y / n);
    assert(p < q) by (nonlinear_arith)
        requires
            n * p <= x < n * p + n,
            n * q <= x + nt < n * q + n,
            n <= nt,
            0 < n,
    ;
    assert(0 <= x < n * nt) by (nonlinear_arith)
        requires
            x == i * nt,
            0 <= i < n,
            0 < nt,
    ;
    assert(0 <= p < nt) by (nonlinear_arith)
        requires
            n * p <= x < n * p + n,
            0 <= x < n * nt,
            0 < n,
    ;
    assert(0 * nt == 0);
    vstd::arithmetic::div_mod::lemma_div_basics(n);
}

/// The surroundings of a tile hold what an action reaches along both axes from a patch on its
/// border.
pub proof fn law_halo_holds_the_reach(rx: int, ry: int)
    ensures
        halo_of(rx, ry) >= rx + 2,
        halo_of(rx, ry) >= ry + 2,
        halo_of(rx, ry) >= 3,
        halo_of(rx, ry) == rx + 2 || halo_of(rx, ry) == ry + 2 || halo_of(rx, ry) == 3,
{
}

/// The lines between tiles lie at multiples of the tile's side, and the segments of a line
/// lie one after the other and end with the map.
pub proof fn law_segments_follow_each_other(
    g: Grid,
    l: Tiling,
    vertical: bool,
    k: int,
    j: int,
)
    requires
        1 <= l.tile,
        0 <= j,
    ensures
        ({
            let e = segment(g, l, vertical, k, j);
            let n = if vertical {
                g.ny
            } else {
                g.nx
            };
            &&& e.line == k * l.tile
            &&& e.hi < n
            &&& e.hi - e.lo < l.tile
            &&& e.hi + 1 == segment(g, l, vertical, k, j + 1).lo || e.hi == n - 1
        }),
{
    assert((j + 1) * l.tile == j * l.tile + l.tile) by (nonlinear_arith);
}

} // verus!
