//! The corridor of a query: the tiles that shortest walks from some start tiles
//! pass, and those around them.
use vstd::prelude::*;

use crate::params::MAX_COST;
use crate::solvers::bitboard::within;
use crate::solvers::schur::artifact::SchurArtifact;
use crate::solvers::schur::domain::edges_ok;
use crate::solvers::schur::search::PortalDijkstra;

verus! {

/// The labels of `r` belong to the artifact `a`.
pub open spec fn labels_ok(a: SchurArtifact, r: PortalDijkstra) -> bool {
    let n = a.portals@.len();
    &&& r.d@.len() == n
    &&& r.parent@.len() == n
    &&& r.via_tile@.len() == n
    &&& forall|q: int| 0 <= q < n ==> #[trigger] r.parent@[q] == u32::MAX || r.parent@[q] < n
    &&& forall|q: int| 0 <= q < n ==> #[trigger] r.via_tile@[q] < a.tnx * a.tny
}

/// The portal `k` steps from `q` on its way to the goal; nothing after the last.
pub open spec fn follow(r: PortalDijkstra, q: int, k: nat) -> Option<int>
    decreases k,
{
    if k == 0 {
        Some(q)
    } else {
        match follow(r, q, (k - 1) as nat) {
            None => None,
            Some(p) => if r.parent@[p] == u32::MAX {
                None
            } else {
                Some(r.parent@[p] as int)
            },
        }
    }
}

/// The walk from portal `q` passes tile `t` within `n` steps.
pub open spec fn passes(r: PortalDijkstra, q: int, n: int, t: int) -> bool {
    exists|k: nat|
        k < n && (#[trigger] follow(r, q, k)) is Some && r.via_tile@[follow(r, q, k)->0] == t
}

/// A portal of tile `f` with a value has a walk that passes tile `t`.
pub open spec fn leads_through(a: SchurArtifact, r: PortalDijkstra, f: int, t: int) -> bool {
    exists|i: int|
        0 <= i < a.tiles@[f].portals@.len() && {
            let q = #[trigger] a.tiles@[f].portals@[i] as int;
            r.d@[q] < MAX_COST && passes(r, q, a.portals@.len() as int + 1, t)
        }
}

/// Tile `t` is one of the first `n` start tiles, or on a walk from one of them.
pub open spec fn on_way(
    a: SchurArtifact,
    r: PortalDijkstra,
    from: Seq<i32>,
    n: int,
    t: int,
) -> bool {
    exists|k: int|
        0 <= k < n && 0 <= #[trigger] from[k] < a.tnx * a.tny && (from[k] == t || leads_through(
            a,
            r,
            from[k] as int,
            t,
        ))
}

/// Tile `t` is at most `dilate` tiles away from one on the way.
pub open spec fn in_corridor(
    a: SchurArtifact,
    r: PortalDijkstra,
    from: Seq<i32>,
    dilate: int,
    t: int,
) -> bool {
    ||| on_way(a, r, from, from.len() as int, t)
    ||| exists|u: int|
        0 <= u < a.tnx * a.tny && #[trigger] on_way(a, r, from, from.len() as int, u)
            && tiles_within(a, u, t, dilate)
}

/// The tiles `u` and `t` are at most `n` columns and rows apart.
pub open spec fn tiles_within(a: SchurArtifact, u: int, t: int, n: int) -> bool {
    let w = a.tnx as int;
    within(u % w, t % w, n) && within(u / w, t / w, n)
}

/// Marks the tiles that the walk from portal `start` passes.
fn mark_walk(
    art: &SchurArtifact,
    dij: &PortalDijkstra,
    start: usize,
    mask: &mut Vec<bool>,
)
    requires
        labels_ok(*art, *dij),
        start < art.portals@.len(),
        old(mask)@.len() == art.tnx * art.tny,
    ensures
        final(mask)@.len() == old(mask)@.len(),
        forall|t: int|
            0 <= t < old(mask)@.len() ==> (#[trigger] final(mask)@[t] <==> old(mask)@[t] || passes(
                *dij,
                start as int,
                art.portals@.len() as int + 1,
                t,
            )),
{
    let np: usize = art.portals.len();
    let ghost m0 = mask@;
    let ghost s = start as int;
    let mut q: usize = start;
    let mut k: usize = 0;
    loop
        invariant
            labels_ok(*art, *dij),
            np == art.portals@.len(),
            m0 == old(mask)@,
            m0.len() == art.tnx * art.tny,
            mask@.len() == m0.len(),
            s == start,
            q < np,
            k <= np,
            follow(*dij, s, k as nat) == Some(q as int),
            forall|t: int|
                0 <= t < m0.len() ==> (#[trigger] mask@[t] <==> m0[t] || passes(
                    *dij,
                    s,
                    k as int,
                    t,
                )),
        decreases np + 1 - k,
    {
        let vt: i32 = dij.via_tile[q];
        let ghost m1 = mask@;
        if vt >= 0 {
            assert(dij.via_tile@[q as int] < art.tnx * art.tny);
            mask.set(vt as usize, true);
        }
        proof {
            assert forall|t: int| 0 <= t < m0.len() implies (#[trigger] mask@[t] <==> m0[t]
                || passes(*dij, s, k + 1, t)) by {
                assert(m1[t] <==> m0[t] || passes(*dij, s, k as int, t));
                if passes(*dij, s, k as int, t) {
                    let j = choose|j: nat|
                        j < k && (#[trigger] follow(*dij, s, j)) is Some && dij.via_tile@[follow(
                            *dij,
                            s,
                            j,
                        )->0] == t;
                    assert(follow(*dij, s, j) is Some);
                }
                if vt == t {
                    assert(follow(*dij, s, k as nat) is Some);
                }
                if passes(*dij, s, k + 1, t) {
                    let j = choose|j: nat|
                        j < k + 1 && (#[trigger] follow(*dij, s, j)) is Some
                            && dij.via_tile@[follow(*dij, s, j)->0] == t;
                    if j < k {
                        assert(follow(*dij, s, j) is Some);
                        assert(passes(*dij, s, k as int, t));
                    }
                }
            }
        }
        let next: u32 = dij.parent[q];
        if next == u32::MAX || k == np {
            proof {
                if k < np {
                    assert(follow(*dij, s, (k + 1) as nat) is None);
                    assert forall|t: int| 0 <= t < m0.len() implies (#[trigger] mask@[t] <==> m0[t]
                        || passes(*dij, s, np + 1, t)) by {
                        assert(mask@[t] <==> m0[t] || passes(*dij, s, k + 1, t));
                        if passes(*dij, s, k + 1, t) {
                            let j = choose|j: nat|
                                j < k + 1 && (#[trigger] follow(*dij, s, j)) is Some
                                    && dij.via_tile@[follow(*dij, s, j)->0] == t;
                            assert(follow(*dij, s, j) is Some);
                        }
                        if passes(*dij, s, np + 1, t) {
                            let j = choose|j: nat|
                                j < np + 1 && (#[trigger] follow(*dij, s, j)) is Some
                                    && dij.via_tile@[follow(*dij, s, j)->0] == t;
                            if j > k {
                                lemma_follow_ended(*dij, s, (k + 1) as nat, j);
                            }
                            assert(follow(*dij, s, j) is Some);
                            assert(passes(*dij, s, k + 1, t));
                        }
                    }
                }
            }
            return ;
        }
        q = next as usize;
        k += 1;
    }
}

proof fn lemma_follow_ended(r: PortalDijkstra, q: int, k: nat, n: nat)
    requires
        follow(r, q, k) is None,
        k <= n,
    ensures
        follow(r, q, n) is None,
    decreases n,
{
    if k < n {
        lemma_follow_ended(r, q, k, (n - 1) as nat);
    }
}

/// Marks tile `f` and the tiles that walks from its portals pass.
fn mark_start(art: &SchurArtifact, dij: &PortalDijkstra, f: usize, mask: &mut Vec<bool>)
    requires
        labels_ok(*art, *dij),
        art.tiles@.len() == art.tnx * art.tny,
        f < art.tiles@.len(),
        edges_ok(art.tiles@[f as int], art.portals@.len() as int),
        old(mask)@.len() == art.tnx * art.tny,
    ensures
        final(mask)@.len() == old(mask)@.len(),
        forall|t: int|
            0 <= t < old(mask)@.len() ==> (#[trigger] final(mask)@[t] <==> old(mask)@[t] || t == f
                || leads_through(*art, *dij, f as int, t)),
{
    let ghost m0 = mask@;
    let list: &Vec<u32> = &art.tiles[f].portals;
    mask.set(f, true);
    let mut i: usize = 0;
    while i < list.len()
        invariant
            i <= list.len(),
            labels_ok(*art, *dij),
            art.tiles@.len() == art.tnx * art.tny,
            f < art.tiles@.len(),
            *list == art.tiles@[f as int].portals,
            edges_ok(art.tiles@[f as int], art.portals@.len() as int),
            m0 == old(mask)@,
            m0.len() == art.tnx * art.tny,
            mask@.len() == m0.len(),
            forall|t: int|
                0 <= t < m0.len() ==> (#[trigger] mask@[t] <==> m0[t] || t == f || exists|j: int|
                    0 <= j < i && {
                        let q = #[trigger] list@[j] as int;
                        dij.d@[q] < MAX_COST && passes(*dij, q, art.portals@.len() as int + 1, t)
                    }),
        decreases list.len() - i,
    {
        let q: usize = list[i] as usize;
        assert(art.tiles@[f as int].portals@[i as int] < art.portals@.len());
        let ghost m1 = mask@;
        if dij.d[q] < MAX_COST {
            mark_walk(art, dij, q, mask);
        }
        proof {
            assert forall|t: int| 0 <= t < m0.len() implies (#[trigger] mask@[t] <==> m0[t] || t
                == f || exists|j: int|
                0 <= j < i + 1 && {
                    let q = #[trigger] list@[j] as int;
                    dij.d@[q] < MAX_COST && passes(*dij, q, art.portals@.len() as int + 1, t)
                }) by {
                assert(m1[t] <==> m0[t] || t == f || exists|j: int|
                    0 <= j < i && {
                        let q = #[trigger] list@[j] as int;
                        dij.d@[q] < MAX_COST && passes(*dij, q, art.portals@.len() as int + 1, t)
                    });
                assert(list@[i as int] == q);
            }
        }
        i += 1;
    }
}

/// The tiles that walks from the given tiles to the goal pass, and those at most
/// `dilate` tiles away from them.
pub fn corridor_tiles(
    art: &SchurArtifact,
    dij: &PortalDijkstra,
    from_tiles: &Vec<i32>,
    dilate: i32,
) -> (mask: Vec<bool>)
    requires
        labels_ok(*art, *dij),
        1 <= art.tnx,
        1 <= art.tny,
        art.tnx * art.tny <= i32::MAX,
        art.tiles@.len() == art.tnx * art.tny,
        forall|t: int|
            0 <= t < art.tiles@.len() ==> edges_ok(
                #[trigger] art.tiles@[t],
                art.portals@.len() as int,
            ),
    ensures
        mask@.len() == art.tnx * art.tny,
        forall|t: int|
            0 <= t < mask@.len() ==> #[trigger] mask@[t] == in_corridor(
                *art,
                *dij,
                from_tiles@,
                dilate as int,
                t,
            ),
{
    let n: usize = (art.tnx * art.tny) as usize;
    let mut mask: Vec<bool> = vec![false; n];
    let mut k: usize = 0;
    while k < from_tiles.len()
        invariant
            k <= from_tiles.len(),
            labels_ok(*art, *dij),
            n == art.tnx * art.tny,
            art.tiles@.len() == n,
            forall|t: int|
                0 <= t < art.tiles@.len() ==> edges_ok(
                    #[trigger] art.tiles@[t],
                    art.portals@.len() as int,
                ),
            mask@.len() == n,
            forall|t: int|
                0 <= t < n ==> #[trigger] mask@[t] == on_way(
                    *art,
                    *dij,
                    from_tiles@,
                    k as int,
                    t,
                ),
        decreases from_tiles.len() - k,
    {
        let f: i32 = from_tiles[k];
        let ghost m0 = mask@;
        if f >= 0 && (f as usize) < n {
            mark_start(art, dij, f as usize, &mut mask);
        }
        proof {
            assert forall|t: int| 0 <= t < n implies #[trigger] mask@[t] == on_way(
                *art,
                *dij,
                from_tiles@,
                k + 1,
                t,
            ) by {
                assert(m0[t] == on_way(*art, *dij, from_tiles@, k as int, t));
                assert(from_tiles@[k as int] == f);
                if on_way(*art, *dij, from_tiles@, k as int, t) {
                    let j = choose|j: int|
                        0 <= j < k && 0 <= #[trigger] from_tiles@[j] < art.tnx * art.tny && (
                        from_tiles@[j] == t || leads_through(
                            *art,
                            *dij,
                            from_tiles@[j] as int,
                            t,
                        ));
                    assert(from_tiles@[j] >= 0);
                    assert(on_way(*art, *dij, from_tiles@, k + 1, t));
                }
            }
        }
        k += 1;
    }
    if dilate > 0 {
        let out: Vec<bool> = widen(art, &mask, dilate);
        proof {
            assert forall|t: int| 0 <= t < out@.len() implies #[trigger] out@[t] == in_corridor(
                *art,
                *dij,
                from_tiles@,
                dilate as int,
                t,
            ) by {
                if out@[t] && !mask@[t] {
                    let u = choose|u: int|
                        0 <= u < n && #[trigger] mask@[u] && tiles_within(
                            *art,
                            u,
                            t,
                            dilate as int,
                        );
                    assert(on_way(*art, *dij, from_tiles@, from_tiles@.len() as int, u));
                }
                if in_corridor(*art, *dij, from_tiles@, dilate as int, t) && !mask@[t] {
                    let u = choose|u: int|
                        0 <= u < art.tnx * art.tny && #[trigger] on_way(
                            *art,
                            *dij,
                            from_tiles@,
                            from_tiles@.len() as int,
                            u,
                        ) && tiles_within(*art, u, t, dilate as int);
                    assert(mask@[u]);
                }
            }
        }
        return out;
    }
    proof {
        assert forall|t: int| 0 <= t < mask@.len() implies #[trigger] mask@[t] == in_corridor(
            *art,
            *dij,
            from_tiles@,
            dilate as int,
            t,
        ) by {
            if exists|u: int|
                0 <= u < art.tnx * art.tny && #[trigger] on_way(
                    *art,
                    *dij,
                    from_tiles@,
                    from_tiles@.len() as int,
                    u,
                ) && tiles_within(*art, u, t, dilate as int) {
                let u = choose|u: int|
                    0 <= u < art.tnx * art.tny && #[trigger] on_way(
                        *art,
                        *dij,
                        from_tiles@,
                        from_tiles@.len() as int,
                        u,
                    ) && tiles_within(*art, u, t, dilate as int);
                let w = art.tnx as int;
                vstd::arithmetic::div_mod::lemma_fundamental_div_mod(u, w);
                vstd::arithmetic::div_mod::lemma_fundamental_div_mod(t, w);
                assert(u == t);
            }
        }
    }
    mask
}

/// The marked tiles and those at most `n` tiles away from one.
fn widen(art: &SchurArtifact, mask: &Vec<bool>, n: i32) -> (r: Vec<bool>)
    requires
        1 <= art.tnx,
        1 <= art.tny,
        art.tnx * art.tny <= i32::MAX,
        mask@.len() == art.tnx * art.tny,
        0 <= n,
    ensures
        r@.len() == mask@.len(),
        forall|t: int|
            0 <= t < r@.len() ==> (#[trigger] r@[t] <==> mask@[t] || exists|u: int|
                0 <= u < mask@.len() && #[trigger] mask@[u] && tiles_within(
                    *art,
                    u,
                    t,
                    n as int,
                )),
{
    let len: usize = mask.len();
    let w: usize = art.tnx as usize;
    let ghost wi = art.tnx as int;
    let mut out: Vec<bool> = Vec::new();
    let mut t: usize = 0;
    while t < len
        invariant
            t <= len,
            len == mask@.len(),
            w == art.tnx,
            wi == art.tnx,
            1 <= w,
            len <= i32::MAX,
            0 <= n,
            out@.len() == t,
            forall|c: int|
                0 <= c < t ==> (#[trigger] out@[c] <==> mask@[c] || exists|u: int|
                    0 <= u < len && #[trigger] mask@[u] && tiles_within(*art, u, c, n as int)),
        decreases len - t,
    {
        let mut hit: bool = mask[t];
        let mut u: usize = 0;
        while u < len
            invariant
                u <= len,
                t < len,
                len == mask@.len(),
                w == art.tnx,
                wi == art.tnx,
                1 <= w,
                len <= i32::MAX,
                0 <= n,
                hit <==> mask@[t as int] || exists|c: int|
                    0 <= c < u && #[trigger] mask@[c] && tiles_within(
                        *art,
                        c,
                        t as int,
                        n as int,
                    ),
            decreases len - u,
        {
            let ghost h0 = hit;
            if mask[u] {
                let (ux, uy, tx, ty) = (u % w, u / w, t % w, t / w);
                let dx: usize = if ux >= tx {
                    ux - tx
                } else {
                    tx - ux
                };
                let dy: usize = if uy >= ty {
                    uy - ty
                } else {
                    ty - uy
                };
                assert(u as int % wi == ux && u as int / wi == uy);
                assert(t as int % wi == tx && t as int / wi == ty);
                if dx <= n as usize && dy <= n as usize {
                    hit = true;
                    assert(tiles_within(*art, u as int, t as int, n as int));
                    assert(mask@[u as int]);
                } else {
                    assert(!tiles_within(*art, u as int, t as int, n as int));
                }
            }
            u += 1;
        }
        out.push(hit);
        t += 1;
    }
    out
}

} // verus!
