//! The strongest of many hypotheses.
//!
//! Scores are whole numbers on any scale: only their order matters.
use vstd::prelude::*;

use vstd::multiset::Multiset;

use crate::solvers::schur::heap::{entry_le, Entry, MinHeap};

verus! {

/// Hypothesis `a` comes before hypothesis `b`: it scores higher, or as high and stands
/// earlier.
pub open spec fn before(scores: Seq<u64>, a: int, b: int) -> bool {
    scores[a] > scores[b] || scores[a] == scores[b] && a < b
}

/// `r` holds the first `k` hypotheses in order, or all of them.
pub open spec fn ranked(scores: Seq<u64>, k: int, r: Seq<u32>) -> bool {
    &&& r.len() == if k < scores.len() {
        k
    } else {
        scores.len() as int
    }
    &&& forall|a: int| 0 <= a < r.len() ==> (#[trigger] r[a]) < scores.len()
    &&& forall|a: int, b: int|
        0 <= a < b < r.len() ==> before(scores, #[trigger] r[a] as int, #[trigger] r[b] as int)
    &&& forall|a: int, p: int|
        0 <= a < r.len() && 0 <= p < scores.len() && !r.contains(p as u32) ==> #[trigger] before(
            scores,
            r[a] as int,
            p,
        )
}

proof fn lemma_ahead(scores: Seq<u64>, j: int, k: int, r: Seq<u32>, t: Seq<u32>, a: int)
    requires
        scores.len() <= u32::MAX,
        ranked(scores, j, r),
        ranked(scores, k, t),
        0 <= a < r.len(),
        a < t.len(),
        r[a] != t[a],
        forall|b: int| 0 <= b < a ==> #[trigger] r[b] == t[b],
    ensures
        before(scores, t[a] as int, r[a] as int),
{
    let p = r[a];
    if t.contains(p) {
        let c = choose|c: int| 0 <= c < t.len() && t[c] == p;
        if c < a {
            assert(r[c] == t[c]);
            assert(before(scores, r[c] as int, r[a] as int));
        } else {
            assert(before(scores, t[a] as int, t[c] as int));
        }
    } else {
        assert(p < scores.len());
        assert(!t.contains(p as int as u32));
        assert(before(scores, t[a] as int, p as int));
    }
}

/// The strongest `j` hypotheses are the first `j` of the strongest `k`, for `j` up to `k`.
/// In particular their scores are the first `j` of all scores in order.
pub proof fn law_fewer_are_the_first(
    scores: Seq<u64>,
    j: int,
    k: int,
    r: Seq<u32>,
    t: Seq<u32>,
)
    requires
        scores.len() <= u32::MAX,
        0 <= j <= k,
        ranked(scores, j, r),
        ranked(scores, k, t),
    ensures
        r.len() <= t.len(),
        r == t.take(r.len() as int),
{
    lemma_same_first(scores, j, k, r, t, r.len() as int);
    assert(r =~= t.take(r.len() as int));
}

proof fn lemma_same_first(
    scores: Seq<u64>,
    j: int,
    k: int,
    r: Seq<u32>,
    t: Seq<u32>,
    n: int,
)
    requires
        scores.len() <= u32::MAX,
        0 <= j <= k,
        ranked(scores, j, r),
        ranked(scores, k, t),
        0 <= n <= r.len(),
    ensures
        forall|b: int| 0 <= b < n ==> #[trigger] r[b] == t[b],
    decreases n,
{
    if n > 0 {
        lemma_same_first(scores, j, k, r, t, n - 1);
        if r[n - 1] != t[n - 1] {
            lemma_ahead(scores, j, k, r, t, n - 1);
            lemma_ahead(scores, k, j, t, r, n - 1);
        }
    }
}

/// The heap's entry for hypothesis `p`.
spec fn entry_of(scores: Seq<u64>, p: int) -> Entry {
    ((u64::MAX - scores[p]) as u64, p as u32)
}

/// The heap holds the first `n` hypotheses without those in `out`.
spec fn holds(h: Multiset<Entry>, scores: Seq<u64>, n: int, out: Seq<u32>) -> bool {
    forall|e: Entry| #[trigger]
        h.count(e) == if e.1 < n && e == entry_of(scores, e.1 as int) && !out.contains(e.1) {
            1nat
        } else {
            0nat
        }
}

/// The strongest `k` hypotheses, strongest first; of equal ones the earlier.
pub fn strongest(scores: &Vec<u64>, k: usize) -> (r: Vec<u32>)
    requires
        scores@.len() <= u32::MAX,
    ensures
        ranked(scores@, k as int, r@),
{
    let ghost sc = scores@;
    let n: usize = scores.len();
    let mut heap: MinHeap = MinHeap::new();
    let mut out: Vec<u32> = Vec::new();
    let mut i: usize = 0;
    while i < n
        invariant
            sc == scores@,
            n == sc.len(),
            n <= u32::MAX,
            i <= n,
            out@.len() == 0,
            heap.wf(),
            heap.size() == i,
            holds(heap@, sc, i as int, out@),
        decreases n - i,
    {
        let ghost h0 = heap@;
        let e: Entry = (u64::MAX - scores[i], i as u32);
        heap.push(e);
        proof {
            assert forall|f: Entry| #[trigger]
                heap@.count(f) == if f.1 < i + 1 && f == entry_of(sc, f.1 as int)
                    && !out@.contains(f.1) {
                    1nat
                } else {
                    0nat
                } by {
                let c = h0.count(f);
                assert(heap@ == h0.insert(e));
            }
        }
        i += 1;
    }
    let take: usize = if k < n {
        k
    } else {
        n
    };
    let mut j: usize = 0;
    while j < take
        invariant
            sc == scores@,
            n == sc.len(),
            n <= u32::MAX,
            take <= n,
            j <= take,
            out@.len() == j,
            heap.wf(),
            heap.size() == n - j,
            holds(heap@, sc, n as int, out@),
            forall|a: int| 0 <= a < j ==> (#[trigger] out@[a]) < n,
            forall|a: int, b: int|
                0 <= a < b < j ==> before(sc, #[trigger] out@[a] as int, #[trigger] out@[b] as int),
            forall|a: int, p: int|
                0 <= a < j && 0 <= p < n && !out@.contains(p as u32) ==> #[trigger] before(
                    sc,
                    out@[a] as int,
                    p,
                ),
        decreases take - j,
    {
        let ghost h0 = heap@;
        let ghost o0 = out@;
        match heap.pop() {
            None => {
                assert(false);
            },
            Some(e) => {
                proof {
                    assert(h0.count(e) > 0);
                    assert(e == entry_of(sc, e.1 as int) && !o0.contains(e.1));
                }
                out.push(e.1);
                proof {
                    assert forall|f: Entry| #[trigger] h0.count(f) > 0 implies entry_le(e, f) by {
                        assert(h0.contains(f));
                    }
                    lemma_pop(sc, n as int, h0, heap@, o0, e);
                }
            },
        }
        j += 1;
    }
    out
}

proof fn lemma_pop(
    sc: Seq<u64>,
    n: int,
    h0: Multiset<Entry>,
    h1: Multiset<Entry>,
    o0: Seq<u32>,
    e: Entry,
)
    requires
        n == sc.len(),
        n <= u32::MAX,
        holds(h0, sc, n, o0),
        h0.count(e) > 0,
        h1 == h0.remove(e),
        forall|f: Entry| #[trigger] h0.count(f) > 0 ==> entry_le(e, f),
        forall|a: int| 0 <= a < o0.len() ==> (#[trigger] o0[a]) < n,
        forall|a: int, b: int|
            0 <= a < b < o0.len() ==> before(sc, #[trigger] o0[a] as int, #[trigger] o0[b] as int),
        forall|a: int, p: int|
            0 <= a < o0.len() && 0 <= p < n && !o0.contains(p as u32) ==> #[trigger] before(
                sc,
                o0[a] as int,
                p,
            ),
    ensures
        ({
            let out = o0.push(e.1);
            &&& holds(h1, sc, n, out)
            &&& forall|a: int| 0 <= a < out.len() ==> (#[trigger] out[a]) < n
            &&& forall|a: int, b: int|
                0 <= a < b < out.len() ==> before(
                    sc,
                    #[trigger] out[a] as int,
                    #[trigger] out[b] as int,
                )
            &&& forall|a: int, p: int|
                0 <= a < out.len() && 0 <= p < n && !out.contains(p as u32)
                    ==> #[trigger] before(sc, out[a] as int, p)
        }),
{
    let out = o0.push(e.1);
    let w = e.1 as int;
    assert(e == entry_of(sc, w) && !o0.contains(e.1) && w < n);
    assert forall|p: u32| #[trigger] out.contains(p) <==> o0.contains(p) || p == e.1 by {
        if out.contains(p) {
            let k = choose|k: int| 0 <= k < out.len() && out[k] == p;
            if k < o0.len() {
                assert(o0[k] == p);
            }
        }
        if o0.contains(p) {
            let k = choose|k: int| 0 <= k < o0.len() && o0[k] == p;
            assert(out[k] == p);
        }
        if p == e.1 {
            assert(out[o0.len() as int] == p);
        }
    }
    assert forall|f: Entry| #[trigger]
        h1.count(f) == if f.1 < n && f == entry_of(sc, f.1 as int) && !out.contains(f.1) {
            1nat
        } else {
            0nat
        } by {
        let c = h0.count(f);
    }
    assert forall|a: int, b: int| 0 <= a < b < out.len() implies before(
        sc,
        #[trigger] out[a] as int,
        #[trigger] out[b] as int,
    ) by {
        assert(o0[a] == out[a]);
        if b == o0.len() {
            assert(before(sc, o0[a] as int, w));
        } else {
            assert(o0[b] == out[b]);
        }
    }
    assert forall|a: int, p: int|
        0 <= a < out.len() && 0 <= p < n && !out.contains(p as u32) implies #[trigger] before(
        sc,
        out[a] as int,
        p,
    ) by {
        assert(!o0.contains(p as u32) && p != w);
        if a < o0.len() {
            assert(before(sc, o0[a] as int, p));
        } else {
            let f = entry_of(sc, p);
            assert(h0.count(f) == 1);
            assert(entry_le(e, f));
        }
    }
}

/// The first hypothesis that no other beats.
pub fn winner(scores: &Vec<u64>) -> (r: Option<usize>)
    ensures
        match r {
            None => scores@.len() == 0,
            Some(w) => w < scores@.len() && forall|p: int|
                0 <= p < scores@.len() && p != w ==> #[trigger] before(scores@, w as int, p),
        },
{
    if scores.len() == 0 {
        return None;
    }
    let mut w: usize = 0;
    let mut i: usize = 1;
    while i < scores.len()
        invariant
            0 < scores@.len(),
            w < i <= scores@.len(),
            forall|p: int|
                0 <= p < i && p != w ==> #[trigger] before(scores@, w as int, p),
        decreases scores.len() - i,
    {
        let ghost w0 = w;
        if scores[i] > scores[w] {
            w = i;
            proof {
                assert forall|p: int| 0 <= p < i + 1 && p != w implies #[trigger] before(
                    scores@,
                    w as int,
                    p,
                ) by {
                    if p != w0 {
                        assert(before(scores@, w0 as int, p));
                    }
                }
            }
        }
        i += 1;
    }
    Some(w)
}

/// Hypotheses below one part in this many of the strongest do not form peaks.
pub const MODE_PARTS: u64 = 20;

/// With more candidates than this a belief has no peaks.
pub const MODE_CANDIDATE_CAP: usize = 4096;

/// The largest of the first `n` weights, or 0.
pub open spec fn largest(weights: Seq<u64>, n: int) -> u64
    decreases n,
{
    if n <= 0 {
        0
    } else {
        let m = largest(weights, n - 1);
        if weights[n - 1] > m {
            weights[n - 1]
        } else {
            m
        }
    }
}

/// Hypothesis `i` is strong enough to form a peak.
pub open spec fn strong(weights: Seq<u64>, i: int) -> bool {
    weights[i] * MODE_PARTS >= largest(weights, weights.len() as int)
}

/// Those of the first `n` hypotheses that are strong.
pub open spec fn strong_ones(weights: Seq<u64>, n: int) -> Seq<u32>
    decreases n,
{
    if n <= 0 {
        Seq::empty()
    } else if strong(weights, n - 1) {
        strong_ones(weights, n - 1).push((n - 1) as u32)
    } else {
        strong_ones(weights, n - 1)
    }
}

/// The strong hypotheses are listed once each, in order.
pub proof fn lemma_strong_ones(weights: Seq<u64>, n: int)
    requires
        0 <= n <= weights.len() <= u32::MAX,
    ensures
        strong_ones(weights, n).len() <= n,
        forall|a: int|
            0 <= a < strong_ones(weights, n).len() ==> #[trigger] strong_ones(weights, n)[a] < n
                && strong(weights, strong_ones(weights, n)[a] as int),
        forall|a: int, b: int|
            0 <= a < b < strong_ones(weights, n).len() ==> #[trigger] strong_ones(weights, n)[a]
                < #[trigger] strong_ones(weights, n)[b],
        forall|i: int|
            #![trigger strong(weights, i)]
            0 <= i < n && strong(weights, i) ==> strong_ones(weights, n).contains(i as u32),
    decreases n,
{
    if n > 0 {
        lemma_strong_ones(weights, n - 1);
        let (l, p) = (strong_ones(weights, n), strong_ones(weights, n - 1));
        assert forall|i: int|
            #![trigger strong(weights, i)]
            0 <= i < n && strong(weights, i) implies l.contains(i as u32) by {
            if i < n - 1 {
                assert(p.contains(i as u32));
                let k = choose|k: int| 0 <= k < p.len() && p[k] == i as u32;
                assert(l[k] == i as u32);
            } else {
                assert(l[p.len() as int] == i as u32);
            }
        }
    }
}

/// The hypotheses that are strong enough to form peaks, strongest first. There are none
/// where nothing has a weight, or where too much has.
pub fn strong_hyps(weights: &Vec<u64>) -> (r: Option<Vec<u32>>)
    requires
        weights@.len() <= u32::MAX,
    ensures
        ({
            let all = strong_ones(weights@, weights@.len() as int);
            match r {
                None => largest(weights@, weights@.len() as int) == 0 || all.len()
                    > MODE_CANDIDATE_CAP,
                Some(l) => {
                    &&& largest(weights@, weights@.len() as int) > 0
                    &&& all.len() <= MODE_CANDIDATE_CAP
                    &&& l@.len() == all.len()
                    &&& forall|a: int| 0 <= a < l@.len() ==> all.contains(#[trigger] l@[a])
                    &&& forall|a: int, b: int|
                        0 <= a < b < l@.len() ==> before(
                            weights@,
                            #[trigger] l@[a] as int,
                            #[trigger] l@[b] as int,
                        )
                },
            }
        }),
{
    let ghost ws = weights@;
    let n: usize = weights.len();
    let mut max: u64 = 0;
    let mut i: usize = 0;
    while i < n
        invariant
            ws == weights@,
            n == ws.len(),
            i <= n,
            max == largest(ws, i as int),
        decreases n - i,
    {
        if weights[i] > max {
            max = weights[i];
        }
        i += 1;
    }
    if max == 0 {
        return None;
    }
    let mut list: Vec<u32> = Vec::new();
    let mut scores: Vec<u64> = Vec::new();
    let mut i: usize = 0;
    while i < n
        invariant
            ws == weights@,
            n == ws.len(),
            n <= u32::MAX,
            i <= n,
            max == largest(ws, n as int),
            list@ == strong_ones(ws, i as int),
            scores@.len() == list@.len(),
            forall|k: int|
                0 <= k < list@.len() ==> #[trigger] list@[k] < n && scores@[k]
                    == ws[list@[k] as int],
        decreases n - i,
    {
        if weights[i] as u128 * MODE_PARTS as u128 >= max as u128 {
            list.push(i as u32);
            scores.push(weights[i]);
        }
        i += 1;
    }
    proof {
        lemma_strong_ones(ws, n as int);
    }
    if list.len() > MODE_CANDIDATE_CAP {
        return None;
    }
    let order: Vec<u32> = strongest(&scores, list.len());
    let ghost all = list@;
    let mut out: Vec<u32> = Vec::new();
    let mut j: usize = 0;
    while j < order.len()
        invariant
            all == list@,
            order@.len() == all.len(),
            forall|k: int| 0 <= k < order@.len() ==> (#[trigger] order@[k]) < all.len(),
            j <= order@.len(),
            out@.len() == j,
            forall|k: int| 0 <= k < j ==> #[trigger] out@[k] == all[order@[k] as int],
        decreases order.len() - j,
    {
        assert(order@[j as int] < all.len());
        out.push(list[order[j] as usize]);
        j += 1;
    }
    proof {
        assert forall|a: int| 0 <= a < out@.len() implies all.contains(#[trigger] out@[a]) by {
            assert(order@[a] < all.len());
            assert(all[order@[a] as int] == out@[a]);
        }
        assert forall|a: int, b: int| 0 <= a < b < out@.len() implies before(
            ws,
            #[trigger] out@[a] as int,
            #[trigger] out@[b] as int,
        ) by {
            let (p, q) = (order@[a] as int, order@[b] as int);
            assert(before(scores@, p, q));
            assert(all[p] < n && all[q] < n);
            if p < q {
                assert(all[p] < all[q]);
            }
        }
    }
    Some(out)
}

/// The largest weight is above each, and is one of them.
pub proof fn law_largest_weight(weights: Seq<u64>, n: int)
    requires
        0 <= n <= weights.len(),
    ensures
        forall|i: int| 0 <= i < n ==> #[trigger] weights[i] <= largest(weights, n),
        n > 0 ==> exists|i: int| 0 <= i < n && #[trigger] weights[i] == largest(weights, n),
        n == 0 ==> largest(weights, n) == 0,
    decreases n,
{
    if n > 0 {
        law_largest_weight(weights, n - 1);
        if weights[n - 1] == largest(weights, n) {
        } else if n > 1 {
            let i = choose|i: int|
                0 <= i < n - 1 && #[trigger] weights[i] == largest(weights, n - 1);
            assert(weights[i] == largest(weights, n));
        }
    }
}

/// The strong hypotheses are exactly those whose weight is at least a twentieth of every
/// other one's.
pub proof fn law_strong_is_a_twentieth(weights: Seq<u64>, i: int)
    requires
        0 <= i < weights.len() <= u32::MAX,
    ensures
        strong_ones(weights, weights.len() as int).contains(i as u32) <==> forall|j: int|
            0 <= j < weights.len() ==> 20 * weights[i] >= #[trigger] weights[j],
{
    let n = weights.len() as int;
    law_largest_weight(weights, n);
    let b = choose|b: int| 0 <= b < n && #[trigger] weights[b] == largest(weights, n);
    lemma_strong(weights, i, n);
    if forall|j: int| 0 <= j < weights.len() ==> 20 * weights[i] >= #[trigger] weights[j] {
        assert(20 * weights[i] >= weights[b]);
    }
}

proof fn lemma_strong(weights: Seq<u64>, i: int, n: int)
    requires
        0 <= i < weights.len() <= u32::MAX,
        0 <= n <= weights.len(),
    ensures
        strong_ones(weights, n).contains(i as u32) <==> i < n && strong(weights, i),
    decreases n,
{
    if n > 0 {
        lemma_strong(weights, i, n - 1);
        let (a, b) = (strong_ones(weights, n - 1), strong_ones(weights, n));
        if a.contains(i as u32) {
            let k = choose|k: int| 0 <= k < a.len() && a[k] == i as u32;
            assert(b[k] == i as u32);
        }
        if strong(weights, n - 1) {
            assert(b[a.len() as int] == (n - 1) as u32);
            if b.contains(i as u32) && i != n - 1 {
                let k = choose|k: int| 0 <= k < b.len() && b[k] == i as u32;
                assert(a[k] == i as u32);
            }
        }
    }
}

} // verus!
