//! Which hypotheses a belief keeps, and what an observation does to their costs.
use vstd::prelude::*;

use crate::belief::index::{law_decode_undoes_index, lemma_at, lemma_decode, BeliefGrid};
use crate::belief::minplus::{plus, FAR};

verus! {

/// The least of the first `n` costs, `FAR` if there is none.
pub open spec fn least(d: Seq<u64>, n: int) -> u64
    decreases n,
{
    if n <= 0 {
        FAR
    } else {
        let m = least(d, n - 1);
        if d[n - 1] < m {
            d[n - 1]
        } else {
            m
        }
    }
}

/// The least cost of all.
pub fn least_cost(d: &Vec<u64>) -> (r: u64)
    ensures
        r == least(d@, d@.len() as int),
{
    let mut m: u64 = FAR;
    let mut i: usize = 0;
    while i < d.len()
        invariant
            i <= d@.len(),
            m == least(d@, i as int),
        decreases d.len() - i,
    {
        if d[i] < m {
            m = d[i];
        }
        i += 1;
    }
    m
}

/// No cost is below the least, and some state has it.
pub proof fn law_least(d: Seq<u64>, n: int)
    requires
        0 <= n <= d.len(),
    ensures
        forall|i: int| 0 <= i < n ==> least(d, n) <= #[trigger] d[i],
        least(d, n) == FAR || exists|i: int| 0 <= i < n && #[trigger] d[i] == least(d, n),
    decreases n,
{
    if n > 0 {
        law_least(d, n - 1);
        if least(d, n) == d[n - 1] {
            assert(d[n - 1] == least(d, n));
        } else {
            let i = choose|i: int| 0 <= i < n - 1 && #[trigger] d[i] == least(d, n - 1);
            assert(least(d, n) != FAR ==> d[i] == least(d, n));
        }
    }
}

/// The cell of state `i` is free.
pub open spec fn in_free(g: BeliefGrid, free: Seq<bool>, i: int) -> bool {
    free[i % (g.nx * g.ny)]
}

/// State `i` is worth weighing: it is free, and at most `reach` dearer than the cheapest.
pub open spec fn worth(
    g: BeliefGrid,
    free: Seq<bool>,
    d: Seq<u64>,
    reach: u64,
    i: int,
) -> bool {
    &&& d[i] != FAR
    &&& d[i] - least(d, d.len() as int) <= reach
    &&& in_free(g, free, i)
}

/// Those of the first `n` states that `keep` holds of, in order.
pub open spec fn listed(keep: spec_fn(int) -> bool, n: int) -> Seq<u32>
    decreases n,
{
    if n <= 0 {
        Seq::empty()
    } else if keep(n - 1) {
        listed(keep, n - 1).push((n - 1) as u32)
    } else {
        listed(keep, n - 1)
    }
}

/// A list of states is increasing, and holds exactly the states that it should.
pub proof fn law_lists_are_exact(keep: spec_fn(int) -> bool, n: int)
    requires
        0 <= n <= u32::MAX + 1,
    ensures
        listed(keep, n).len() <= n,
        forall|a: int, b: int|
            0 <= a < b < listed(keep, n).len() ==> #[trigger] listed(keep, n)[a]
                < #[trigger] listed(keep, n)[b],
        forall|a: int|
            0 <= a < listed(keep, n).len() ==> #[trigger] listed(keep, n)[a] < n && keep(
                listed(keep, n)[a] as int,
            ),
        forall|i: int|
            #![trigger keep(i)]
            0 <= i < n && keep(i) ==> listed(keep, n).contains(i as u32),
    decreases n,
{
    if n > 0 {
        law_lists_are_exact(keep, n - 1);
        let (l, p) = (listed(keep, n), listed(keep, n - 1));
        assert forall|i: int|
            #![trigger keep(i)]
            0 <= i < n && keep(i) implies l.contains(i as u32) by {
            if i < n - 1 {
                assert(p.contains(i as u32));
                let k = choose|k: int| 0 <= k < p.len() && p[k] == i as u32;
                assert(l[k] == i as u32);
            } else {
                assert(l[p.len() as int] == i as u32);
            }
        }
    }
}

fn cell_free(g: &BeliefGrid, free: &Vec<bool>, i: usize) -> (r: bool)
    requires
        g.wf(),
        i < g.len(),
        free@.len() == g.nx * g.ny,
    ensures
        r == in_free(*g, free@, i as int),
{
    let plane: usize = (g.nx * g.ny) as usize;
    proof {
        lemma_decode(*g, i as int);
        vstd::arithmetic::div_mod::lemma_mod_bound(i as int, plane as int);
    }
    free[i % plane]
}

/// The free states of the map.
pub fn free_states(g: &BeliefGrid, free: &Vec<bool>) -> (r: Vec<u32>)
    requires
        g.wf(),
        free@.len() == g.nx * g.ny,
        g.len() <= usize::MAX,
    ensures
        r@ == listed(|i: int| in_free(*g, free@, i), g.len()),
{
    let ghost keep = |i: int| in_free(*g, free@, i);
    let n: usize = state_count(g);
    let mut out: Vec<u32> = Vec::new();
    let mut i: usize = 0;
    while i < n
        invariant
            g.wf(),
            free@.len() == g.nx * g.ny,
            n == g.len(),
            i <= n,
            keep == (|i: int| in_free(*g, free@, i)),
            out@ == listed(keep, i as int),
        decreases n - i,
    {
        if cell_free(g, free, i) {
            out.push(i as u32);
        }
        i += 1;
    }
    out
}

/// Number of states.
pub fn state_count(g: &BeliefGrid) -> (r: usize)
    requires
        g.wf(),
        g.len() <= usize::MAX,
    ensures
        r == g.len(),
{
    assert(g.nx * g.ny * g.nt == g.nt * g.ny * g.nx) by (nonlinear_arith);
    (g.nx * g.ny) as usize * g.nt as usize
}

/// Number of free cells of the map.
pub open spec fn free_count(free: Seq<bool>, n: int) -> int
    decreases n,
{
    if n <= 0 {
        0
    } else {
        free_count(free, n - 1) + if free[n - 1] {
            1int
        } else {
            0int
        }
    }
}

/// Number of free cells of the map.
pub fn count_free(free: &Vec<bool>) -> (r: usize)
    ensures
        r == free_count(free@, free@.len() as int),
{
    let mut c: usize = 0;
    let mut i: usize = 0;
    while i < free.len()
        invariant
            i <= free@.len(),
            c <= i,
            c == free_count(free@, i as int),
        decreases free.len() - i,
    {
        if free[i] {
            c += 1;
        }
        i += 1;
    }
    c
}

/// Drops the hypotheses that are not worth weighing, and lists the others.
pub fn prune(d: &mut Vec<u64>, g: &BeliefGrid, free: &Vec<bool>, reach: u64) -> (r: Vec<u32>)
    requires
        g.wf(),
        old(d)@.len() == g.len(),
        free@.len() == g.nx * g.ny,
    ensures
        final(d)@ == Seq::new(
            old(d)@.len(),
            |i: int|
                if worth(*g, free@, old(d)@, reach, i) {
                    old(d)@[i]
                } else {
                    FAR
                },
        ),
        r@ == listed(|i: int| worth(*g, free@, old(d)@, reach, i), g.len()),
{
    let ghost d0 = d@;
    let ghost keep = |i: int| worth(*g, free@, d0, reach, i);
    let m: u64 = least_cost(d);
    let mut live: Vec<u32> = Vec::new();
    let n: usize = d.len();
    proof {
        law_least(d0, n as int);
    }
    let mut i: usize = 0;
    while i < n
        invariant
            g.wf(),
            free@.len() == g.nx * g.ny,
            n == g.len(),
            d0.len() == n,
            d@.len() == n,
            m == least(d0, n as int),
            forall|k: int| 0 <= k < n ==> m <= #[trigger] d0[k],
            keep == (|i: int| worth(*g, free@, d0, reach, i)),
            i <= n,
            live@ == listed(keep, i as int),
            forall|k: int| i <= k < n ==> #[trigger] d@[k] == d0[k],
            forall|k: int|
                0 <= k < i ==> #[trigger] d@[k] == if worth(*g, free@, d0, reach, k) {
                    d0[k]
                } else {
                    FAR
                },
        decreases n - i,
    {
        let v: u64 = d[i];
        assert(v == d0[i as int]);
        if v != FAR && v - m <= reach && cell_free(g, free, i) {
            live.push(i as u32);
        } else {
            d.set(i, FAR);
        }
        i += 1;
    }
    proof {
        assert(d@ =~= Seq::new(
            d0.len(),
            |i: int|
                if worth(*g, free@, d0, reach, i) {
                    d0[i]
                } else {
                    FAR
                },
        ));
    }
    live
}

/// Raises the costs of the listed hypotheses by what the observation says of them.
pub fn add_evidence(d: &mut Vec<u64>, live: &Vec<u32>, costs: &Vec<u64>)
    requires
        live@.len() == costs@.len(),
        forall|k: int| 0 <= k < live@.len() ==> (#[trigger] live@[k]) < old(d)@.len(),
        forall|a: int, b: int|
            0 <= a < b < live@.len() ==> #[trigger] live@[a] < #[trigger] live@[b],
    ensures
        final(d)@.len() == old(d)@.len(),
        forall|k: int|
            0 <= k < live@.len() ==> final(d)@[#[trigger] live@[k] as int] == plus(
                old(d)@[live@[k] as int] as int,
                costs@[k] as int,
            ),
        forall|i: int|
            0 <= i < old(d)@.len() && !live@.contains(i as u32) ==> #[trigger] final(d)@[i] == old(
                d,
            )@[i],
{
    let ghost d0 = d@;
    let mut k: usize = 0;
    while k < live.len()
        invariant
            live@.len() == costs@.len(),
            d@.len() == d0.len(),
            forall|k: int| 0 <= k < live@.len() ==> (#[trigger] live@[k]) < d0.len(),
            forall|a: int, b: int|
                0 <= a < b < live@.len() ==> #[trigger] live@[a] < #[trigger] live@[b],
            k <= live@.len(),
            forall|j: int|
                0 <= j < k ==> d@[#[trigger] live@[j] as int] == plus(
                    d0[live@[j] as int] as int,
                    costs@[j] as int,
                ),
            forall|j: int| k <= j < live@.len() ==> d@[#[trigger] live@[j] as int] == d0[live@[j] as int],
            forall|i: int|
                0 <= i < d0.len() && !live@.contains(i as u32) ==> #[trigger] d@[i] == d0[i],
        decreases live.len() - k,
    {
        let i: usize = live[k] as usize;
        let ghost before = d@;
        assert(live@[k as int] < d0.len());
        d.set(i, d[i].saturating_add(costs[k]));
        proof {
            assert(live@.contains(live@[k as int]));
            assert forall|j: int| 0 <= j < live@.len() && j != k implies d@[#[trigger] live@[j] as int]
                == before[live@[j] as int] by {
                if j < k {
                    assert(live@[j] < live@[k as int]);
                } else {
                    assert(live@[k as int] < live@[j]);
                }
            }
        }
        k += 1;
    }
}

/// State `i` has a weight: it is at most `faint` dearer than the cheapest.
pub open spec fn seen(d: Seq<u64>, faint: u64, i: int) -> bool {
    d[i] != FAR && d[i] - least(d, d.len() as int) <= faint
}

/// The hypotheses that have a weight after an observation. Where none is left, all free
/// states become equally likely again.
pub fn settle(d: &mut Vec<u64>, g: &BeliefGrid, free: &Vec<bool>, faint: u64) -> (r: Vec<u32>)
    requires
        g.wf(),
        old(d)@.len() == g.len(),
        free@.len() == g.nx * g.ny,
    ensures
        least(old(d)@, g.len()) != FAR ==> final(d)@ == old(d)@ && r@ == listed(
            |i: int| seen(old(d)@, faint, i),
            g.len(),
        ),
        least(old(d)@, g.len()) == FAR ==> {
            &&& final(d)@ == Seq::new(
                old(d)@.len(),
                |i: int|
                    if in_free(*g, free@, i) {
                        0u64
                    } else {
                        FAR
                    },
            )
            &&& r@ == listed(|i: int| in_free(*g, free@, i), g.len())
        },
{
    let ghost d0 = d@;
    let m: u64 = least_cost(d);
    let n: usize = d.len();
    let mut out: Vec<u32> = Vec::new();
    let mut i: usize = 0;
    proof {
        law_least(d0, n as int);
    }
    if m != FAR {
        let ghost keep = |i: int| seen(d0, faint, i);
        while i < n
            invariant
                d0 == d@,
                n == d0.len(),
                n <= u32::MAX,
                m == least(d0, n as int),
                forall|k: int| 0 <= k < n ==> m <= #[trigger] d0[k],
                keep == (|i: int| seen(d0, faint, i)),
                i <= n,
                out@ == listed(keep, i as int),
            decreases n - i,
        {
            let v: u64 = d[i];
            if v != FAR && v - m <= faint {
                out.push(i as u32);
            }
            i += 1;
        }
        return out;
    }
    let ghost keep = |i: int| in_free(*g, free@, i);
    while i < n
        invariant
            g.wf(),
            free@.len() == g.nx * g.ny,
            n == g.len(),
            d@.len() == n,
            keep == (|i: int| in_free(*g, free@, i)),
            i <= n,
            out@ == listed(keep, i as int),
            forall|k: int|
                0 <= k < i ==> #[trigger] d@[k] == if in_free(*g, free@, k) {
                    0u64
                } else {
                    FAR
                },
        decreases n - i,
    {
        if cell_free(g, free, i) {
            d.set(i, 0);
            out.push(i as u32);
        } else {
            d.set(i, FAR);
        }
        i += 1;
    }
    proof {
        assert(d@ =~= Seq::new(
            d0.len(),
            |i: int|
                if in_free(*g, free@, i) {
                    0u64
                } else {
                    FAR
                },
        ));
    }
    out
}

/// The least cost of the listed states.
pub open spec fn least_listed(d: Seq<u64>, list: Seq<u32>, n: int) -> u64
    decreases n,
{
    if n <= 0 {
        FAR
    } else {
        let m = least_listed(d, list, n - 1);
        let v = d[list[n - 1] as int];
        if v < m {
            v
        } else {
            m
        }
    }
}

/// Makes every free state at most `depth` dearer than the cheapest of the `active` ones,
/// so that none is out of the question. Says which states have a weight then; nothing
/// changes where no active state has a cost.
pub fn raise_floor(
    d: &mut Vec<u64>,
    g: &BeliefGrid,
    free: &Vec<bool>,
    active: &Vec<u32>,
    depth: u64,
) -> (r: Option<Vec<u32>>)
    requires
        g.wf(),
        old(d)@.len() == g.len(),
        free@.len() == g.nx * g.ny,
        forall|k: int| 0 <= k < active@.len() ==> (#[trigger] active@[k]) < old(d)@.len(),
    ensures
        ({
            let m = least_listed(old(d)@, active@, active@.len() as int);
            let floor = plus(m as int, depth as int);
            if m == FAR {
                r is None && final(d)@ == old(d)@
            } else {
                &&& r is Some
                &&& r->0@ == listed(|i: int| in_free(*g, free@, i), g.len())
                &&& final(d)@ == Seq::new(
                    old(d)@.len(),
                    |i: int|
                        if in_free(*g, free@, i) && floor < old(d)@[i] {
                            floor as u64
                        } else {
                            old(d)@[i]
                        },
                )
            }
        }),
        final(d)@.len() == old(d)@.len(),
        forall|i: int| 0 <= i < old(d)@.len() ==> #[trigger] final(d)@[i] <= old(d)@[i],
        forall|i: int, k: int|
            0 <= i < old(d)@.len() && in_free(*g, free@, i) && 0 <= k < active@.len() && old(
                d,
            )@[active@[k] as int] != FAR ==> #[trigger] final(d)@[i] <= old(
                d,
            )@[#[trigger] active@[k] as int] + depth,
{
    let ghost d0 = d@;
    let mut m: u64 = FAR;
    let mut k: usize = 0;
    proof {
        law_least_listed(d0, active@, active@.len() as int);
    }
    while k < active.len()
        invariant
            d0 == d@,
            forall|k: int| 0 <= k < active@.len() ==> (#[trigger] active@[k]) < d0.len(),
            k <= active@.len(),
            m == least_listed(d0, active@, k as int),
        decreases active.len() - k,
    {
        assert(active@[k as int] < d0.len());
        let v: u64 = d[active[k] as usize];
        if v < m {
            m = v;
        }
        k += 1;
    }
    if m == FAR {
        return None;
    }
    let floor: u64 = m.saturating_add(depth);
    let n: usize = d.len();
    let ghost keep = |i: int| in_free(*g, free@, i);
    let mut out: Vec<u32> = Vec::new();
    let mut i: usize = 0;
    while i < n
        invariant
            g.wf(),
            free@.len() == g.nx * g.ny,
            n == g.len(),
            d0.len() == n,
            d@.len() == n,
            keep == (|i: int| in_free(*g, free@, i)),
            i <= n,
            out@ == listed(keep, i as int),
            forall|k: int| i <= k < n ==> #[trigger] d@[k] == d0[k],
            forall|k: int|
                0 <= k < i ==> #[trigger] d@[k] == if in_free(*g, free@, k) && floor < d0[k] {
                    floor
                } else {
                    d0[k]
                },
        decreases n - i,
    {
        if cell_free(g, free, i) {
            if floor < d[i] {
                d.set(i, floor);
            }
            out.push(i as u32);
        }
        i += 1;
    }
    proof {
        assert(d@ =~= Seq::new(
            d0.len(),
            |i: int|
                if in_free(*g, free@, i) && plus(m as int, depth as int) < d0[i] {
                    plus(m as int, depth as int) as u64
                } else {
                    d0[i]
                },
        ));
    }
    Some(out)
}

/// A state is in the free part of the map exactly where its cell is free, whatever its
/// heading.
pub proof fn law_free_by_cell(g: BeliefGrid, free: Seq<bool>, x: int, y: int, t: int)
    requires
        g.wf(),
        g.has(x, y, t),
    ensures
        in_free(g, free, g.at(x, y, t)) == free[y * g.nx + x],
{
    law_decode_undoes_index(g, x, y, t);
    lemma_at(g, x, y, t);
    lemma_decode(g, g.at(x, y, t));
    let c = g.at(x, y, t) % (g.nx * g.ny);
    vstd::arithmetic::div_mod::lemma_fundamental_div_mod(c, g.nx as int);
    assert(y * g.nx == g.nx * y) by (nonlinear_arith);
}

/// A state is kept exactly where its cell is free and it costs at most `reach` more than any
/// other state; the cheapest state is kept if its cell is free.
pub proof fn law_worth_is_near_the_best(
    g: BeliefGrid,
    free: Seq<bool>,
    d: Seq<u64>,
    reach: u64,
    i: int,
    j: int,
)
    requires
        0 <= i < d.len(),
        0 <= j < d.len(),
    ensures
        worth(g, free, d, reach, i) && d[j] != FAR ==> d[i] <= d[j] + reach,
        worth(g, free, d, reach, i) ==> in_free(g, free, i) && d[i] != FAR,
        in_free(g, free, i) && d[i] != FAR && (forall|k: int|
            0 <= k < d.len() ==> d[i] <= #[trigger] d[k] + reach) ==> worth(g, free, d, reach, i),
        seen(d, reach, i) ==> d[i] != FAR && d[i] <= d[j] + reach,
        d[i] != FAR && (forall|k: int| 0 <= k < d.len() ==> d[i] <= #[trigger] d[k] + reach)
            ==> seen(d, reach, i),
{
    let n = d.len() as int;
    law_least(d, n);
    if least(d, n) != FAR {
        let k = choose|k: int| 0 <= k < n && #[trigger] d[k] == least(d, n);
        assert(d[k] == least(d, n));
    } else {
        assert(least(d, n) <= d[i]);
    }
}

/// The number of free cells is that of the cells in a list of exactly these.
pub proof fn law_free_cells_are_counted(free: Seq<bool>, n: int)
    requires
        0 <= n <= free.len(),
    ensures
        0 <= free_count(free, n) <= n,
        free_count(free, n) == listed(|i: int| free[i], n).len(),
        free_count(free, n) == n <==> forall|i: int| 0 <= i < n ==> #[trigger] free[i],
        free_count(free, n) == 0 <==> forall|i: int| 0 <= i < n ==> !#[trigger] free[i],
    decreases n,
{
    if n > 0 {
        law_free_cells_are_counted(free, n - 1);
        if free_count(free, n) == n {
            assert(free[n - 1]);
        }
        if free_count(free, n) == 0 {
            assert(!free[n - 1]);
        }
    }
}

/// The least cost of listed states is below that of each, and is that of one of them.
pub proof fn law_least_listed(d: Seq<u64>, list: Seq<u32>, n: int)
    requires
        0 <= n <= list.len(),
    ensures
        forall|k: int| 0 <= k < n ==> least_listed(d, list, n) <= d[#[trigger] list[k] as int],
        least_listed(d, list, n) == FAR || exists|k: int|
            0 <= k < n && d[#[trigger] list[k] as int] == least_listed(d, list, n),
    decreases n,
{
    if n > 0 {
        law_least_listed(d, list, n - 1);
        if least_listed(d, list, n - 1) == least_listed(d, list, n) {
            if least_listed(d, list, n) != FAR {
                let k = choose|k: int|
                    0 <= k < n - 1 && d[#[trigger] list[k] as int] == least_listed(d, list, n - 1);
                assert(d[list[k] as int] == least_listed(d, list, n));
            }
        } else {
            assert(d[list[n - 1] as int] == least_listed(d, list, n));
        }
    }
}

} // verus!
