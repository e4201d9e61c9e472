//! Peaks of a belief: hypotheses that lie far enough apart.
use vstd::prelude::*;

verus! {

/// A hypothesis about where the robot is, in millionths of a metre, and its weight.
#[derive(Clone, Copy, Debug, PartialEq, Eq, Structural)]
pub struct Spot {
    pub x: i64,
    pub y: i64,
    pub weight: u64,
}

/// Coordinates that leave room for squares.
pub const COORD_MAX: i64 = 0x0fff_ffff_ffff_ffff;

impl Spot {
    /// The coordinates leave room for squares.
    pub open spec fn wf(self) -> bool {
        -COORD_MAX <= self.x <= COORD_MAX && -COORD_MAX <= self.y <= COORD_MAX
    }
}

/// The square of the distance of two hypotheses.
pub open spec fn dist2(a: Spot, b: Spot) -> int {
    (a.x - b.x) * (a.x - b.x) + (a.y - b.y) * (a.y - b.y)
}

/// Two hypotheses are less than `sep` apart.
pub open spec fn near(a: Spot, b: Spot, sep: int) -> bool {
    dist2(a, b) < sep * sep
}

fn is_near(a: &Spot, b: &Spot, sep: u64) -> (r: bool)
    requires
        a.wf(),
        b.wf(),
    ensures
        r == near(*a, *b, sep as int),
{
    let dx: i128 = a.x as i128 - b.x as i128;
    let dy: i128 = a.y as i128 - b.y as i128;
    proof {
        let m = 0x1fff_ffff_ffff_fffe;
        lemma_square(dx as int, m);
        lemma_square(dy as int, m);
        lemma_square(sep as int, 0xffff_ffff_ffff_ffff);
    }
    let d: u128 = (dx * dx + dy * dy) as u128;
    d < sep as u128 * sep as u128
}

proof fn lemma_square(d: int, m: int)
    requires
        -m <= d <= m,
    ensures
        0 <= d * d <= m * m,
{
    assert(0 <= d * d <= m * m) by (nonlinear_arith)
        requires
            -m <= d <= m,
    ;
}

/// No hypothesis in `list` is near hypothesis `p`.
pub open spec fn stands_apart(hyps: Seq<Spot>, list: Seq<usize>, p: int, sep: int) -> bool {
    forall|k: int| 0 <= k < list.len() ==> !near(hyps[p], hyps[#[trigger] list[k] as int], sep)
}

/// The peaks among the first `n` hypotheses: each that is not near an earlier peak.
pub open spec fn peaks(hyps: Seq<Spot>, sep: int, n: int) -> Seq<usize>
    decreases n,
{
    if n <= 0 {
        Seq::empty()
    } else {
        let before = peaks(hyps, sep, n - 1);
        if stands_apart(hyps, before, n - 1, sep) {
            before.push((n - 1) as usize)
        } else {
            before
        }
    }
}

/// The peaks of a list of hypotheses, strongest first.
pub fn modes(hyps: &Vec<Spot>, sep: u64) -> (r: Vec<usize>)
    requires
        forall|k: int| 0 <= k < hyps@.len() ==> (#[trigger] hyps@[k]).wf(),
    ensures
        r@ == peaks(hyps@, sep as int, hyps@.len() as int),
{
    let ghost hs = hyps@;
    let mut out: Vec<usize> = Vec::new();
    let mut p: usize = 0;
    while p < hyps.len()
        invariant
            hs == hyps@,
            forall|k: int| 0 <= k < hs.len() ==> (#[trigger] hs[k]).wf(),
            p <= hs.len(),
            out@ == peaks(hs, sep as int, p as int),
            forall|k: int| 0 <= k < out@.len() ==> (#[trigger] out@[k]) < p,
        decreases hyps.len() - p,
    {
        let mut apart: bool = true;
        let mut k: usize = 0;
        while k < out.len() && apart
            invariant
                hs == hyps@,
                forall|k: int| 0 <= k < hs.len() ==> (#[trigger] hs[k]).wf(),
                p < hs.len(),
                forall|k: int| 0 <= k < out@.len() ==> (#[trigger] out@[k]) < p,
                k <= out@.len(),
                apart ==> forall|j: int|
                    0 <= j < k ==> !near(
                        hs[p as int],
                        hs[#[trigger] out@[j] as int],
                        sep as int,
                    ),
                !apart ==> !stands_apart(hs, out@, p as int, sep as int),
            decreases out.len() - k,
        {
            let q: usize = out[k];
            if is_near(&hyps[p], &hyps[q], sep) {
                apart = false;
                assert(near(hs[p as int], hs[out@[k as int] as int], sep as int));
            }
            k += 1;
        }
        if apart {
            out.push(p);
        }
        p += 1;
    }
    out
}

/// Number of peaks.
pub fn mode_count(hyps: &Vec<Spot>, sep: u64) -> (r: usize)
    requires
        forall|k: int| 0 <= k < hyps@.len() ==> (#[trigger] hyps@[k]).wf(),
    ensures
        r == peaks(hyps@, sep as int, hyps@.len() as int).len(),
{
    modes(hyps, sep).len()
}

/// Peaks lie at least `sep` apart, and every hypothesis is a peak or near one.
pub proof fn law_peaks(hyps: Seq<Spot>, sep: int, n: int)
    requires
        0 <= n <= hyps.len() <= usize::MAX,
        0 < sep,
    ensures
        forall|k: int|
            0 <= k < peaks(hyps, sep, n).len() ==> #[trigger] peaks(hyps, sep, n)[k] < n,
        forall|a: int, b: int|
            0 <= a < b < peaks(hyps, sep, n).len() ==> !near(
                hyps[#[trigger] peaks(hyps, sep, n)[b] as int],
                hyps[#[trigger] peaks(hyps, sep, n)[a] as int],
                sep,
            ),
        forall|p: int| 0 <= p < n ==> #[trigger] is_covered(hyps, peaks(hyps, sep, n), p, sep),
    decreases n,
{
    if n > 0 {
        law_peaks(hyps, sep, n - 1);
        let (l, b) = (peaks(hyps, sep, n), peaks(hyps, sep, n - 1));
        assert forall|p: int| 0 <= p < n implies #[trigger] is_covered(hyps, l, p, sep) by {
            if p < n - 1 {
                assert(is_covered(hyps, b, p, sep));
                let k = choose|k: int|
                    0 <= k < b.len() && near(hyps[p], hyps[#[trigger] b[k] as int], sep);
                assert(l[k] == b[k]);
            } else if stands_apart(hyps, b, n - 1, sep) {
                assert(l[b.len() as int] == n - 1);
                assert(dist2(hyps[p], hyps[p]) == 0);
                assert(0 < sep * sep) by (nonlinear_arith)
                    requires
                        0 < sep,
                ;
            } else {
                let k = choose|k: int|
                    0 <= k < b.len() && near(hyps[p], hyps[#[trigger] b[k] as int], sep);
                assert(l[k] == b[k]);
            }
        }
    }
}

/// Some hypothesis in `list` is near hypothesis `p`.
pub open spec fn is_covered(hyps: Seq<Spot>, list: Seq<usize>, p: int, sep: int) -> bool {
    exists|k: int| 0 <= k < list.len() && near(hyps[p], hyps[#[trigger] list[k] as int], sep)
}

/// The first `k` peaks of a list of hypotheses; all of them where there are fewer.
pub open spec fn top_peaks(hyps: Seq<Spot>, sep: int, k: int) -> Seq<usize> {
    let all = peaks(hyps, sep, hyps.len() as int);
    if all.len() <= k {
        all
    } else {
        all.take(k)
    }
}

/// The one of the first `m` peaks that hypothesis `p` belongs to: itself if it is a peak,
/// otherwise the nearest that it is near to, the first of several.
pub open spec fn home(
    hyps: Seq<Spot>,
    list: Seq<usize>,
    p: int,
    sep: int,
    m: int,
) -> Option<int>
    decreases m,
{
    if m <= 0 {
        None
    } else {
        let before = home(hyps, list, p, sep, m - 1);
        let q = hyps[list[m - 1] as int];
        let closer = match before {
            None => true,
            Some(i) => dist2(hyps[p], q) < dist2(hyps[p], hyps[list[i] as int]),
        };
        if list[m - 1] == p || near(hyps[p], q, sep) && closer {
            Some(m - 1)
        } else {
            before
        }
    }
}

/// The weight of the first `n` hypotheses, each added to the peak that it belongs to.
pub open spec fn gathered(hyps: Seq<Spot>, list: Seq<usize>, sep: int, n: int) -> Seq<int>
    decreases n,
{
    if n <= 0 {
        Seq::new(list.len(), |i: int| 0int)
    } else {
        let b = gathered(hyps, list, sep, n - 1);
        match home(hyps, list, n - 1, sep, list.len() as int) {
            Some(i) => b.update(i, b[i] + hyps[n - 1].weight),
            None => b,
        }
    }
}

proof fn lemma_home_range(hyps: Seq<Spot>, list: Seq<usize>, p: int, sep: int, m: int)
    ensures
        home(hyps, list, p, sep, m) matches Some(i) ==> 0 <= i < m,
    decreases m,
{
    if m > 0 {
        lemma_home_range(hyps, list, p, sep, m - 1);
    }
}

proof fn lemma_gathered_len(hyps: Seq<Spot>, list: Seq<usize>, sep: int, n: int)
    ensures
        gathered(hyps, list, sep, n).len() == list.len(),
    decreases n,
{
    if n > 0 {
        lemma_gathered_len(hyps, list, sep, n - 1);
        lemma_home_range(hyps, list, n - 1, sep, list.len() as int);
    }
}

/// A hypothesis belongs to no peak that is farther than another: what it belongs to is the
/// nearest of all peaks in the list, the first of several. It belongs to none exactly where
/// none is near.
pub proof fn law_home_is_nearest(hyps: Seq<Spot>, list: Seq<usize>, p: int, sep: int, m: int)
    requires
        0 <= m <= list.len(),
        forall|k: int| 0 <= k < m ==> list[k] != p,
    ensures
        match home(hyps, list, p, sep, m) {
            Some(i) => {
                &&& 0 <= i < m
                &&& near(hyps[p], hyps[list[i] as int], sep)
                &&& forall|k: int|
                    0 <= k < m ==> dist2(hyps[p], hyps[list[i] as int]) <= dist2(
                        hyps[p],
                        hyps[#[trigger] list[k] as int],
                    )
                &&& forall|k: int|
                    0 <= k < i ==> dist2(hyps[p], hyps[list[i] as int]) < dist2(
                        hyps[p],
                        hyps[#[trigger] list[k] as int],
                    )
            },
            None => forall|k: int|
                0 <= k < m ==> !near(hyps[p], hyps[#[trigger] list[k] as int], sep),
        },
    decreases m,
{
    if m > 0 {
        assert(list[m - 1] != p);
        law_home_is_nearest(hyps, list, p, sep, m - 1);
    }
}

fn square_of(a: &Spot, b: &Spot) -> (r: u128)
    requires
        a.wf(),
        b.wf(),
    ensures
        r == dist2(*a, *b),
{
    let dx: i128 = a.x as i128 - b.x as i128;
    let dy: i128 = a.y as i128 - b.y as i128;
    proof {
        let m = 0x1fff_ffff_ffff_fffe;
        lemma_square(dx as int, m);
        lemma_square(dy as int, m);
    }
    (dx * dx + dy * dy) as u128
}

/// The peak that hypothesis `p` belongs to.
fn find_home(hyps: &Vec<Spot>, list: &Vec<usize>, p: usize, sep: u64) -> (r: Option<usize>)
    requires
        p < hyps@.len(),
        forall|i: int| 0 <= i < hyps@.len() ==> (#[trigger] hyps@[i]).wf(),
        forall|i: int| 0 <= i < list@.len() ==> (#[trigger] list@[i]) < hyps@.len(),
    ensures
        match r {
            Some(i) => i < list@.len() && home(
                hyps@,
                list@,
                p as int,
                sep as int,
                list@.len() as int,
            ) == Some(i as int),
            None => home(hyps@, list@, p as int, sep as int, list@.len() as int) is None,
        },
{
    let mut best: Option<usize> = None;
    let mut m: usize = 0;
    while m < list.len()
        invariant
            m <= list@.len(),
            p < hyps@.len(),
            forall|i: int| 0 <= i < hyps@.len() ==> (#[trigger] hyps@[i]).wf(),
            forall|i: int| 0 <= i < list@.len() ==> (#[trigger] list@[i]) < hyps@.len(),
            match best {
                Some(i) => i < m && home(hyps@, list@, p as int, sep as int, m as int) == Some(
                    i as int,
                ),
                None => home(hyps@, list@, p as int, sep as int, m as int) is None,
            },
        decreases list.len() - m,
    {
        let q: usize = list[m];
        let takes: bool = if q == p {
            true
        } else if !is_near(&hyps[p], &hyps[q], sep) {
            false
        } else {
            match best {
                None => true,
                Some(i) => square_of(&hyps[p], &hyps[q]) < square_of(&hyps[p], &hyps[list[i]]),
            }
        };
        if takes {
            best = Some(m);
        }
        m += 1;
    }
    best
}

/// The peaks of a list of hypotheses, `k` at most, each with the weight of the hypotheses
/// that it is the nearest peak of. What is near none of them is left out.
pub fn weighted_modes(hyps: &Vec<Spot>, sep: u64, k: usize) -> (r: Vec<(usize, u128)>)
    requires
        forall|i: int| 0 <= i < hyps@.len() ==> (#[trigger] hyps@[i]).wf(),
    ensures
        ({
            let list = top_peaks(hyps@, sep as int, k as int);
            let w = gathered(hyps@, list, sep as int, hyps@.len() as int);
            &&& r@.len() == list.len()
            &&& forall|i: int|
                0 <= i < r@.len() ==> (#[trigger] r@[i]).0 == list[i] && r@[i].1 == w[i]
        }),
{
    let ghost hs = hyps@;
    let ghost s = sep as int;
    let mut list: Vec<usize> = modes(hyps, sep);
    proof {
        assert(hyps.len() == hs.len());
        lemma_peaks_range(hs, s, hs.len() as int);
    }
    if list.len() > k {
        list.truncate(k);
    }
    assert(list@ == top_peaks(hs, s, k as int));
    let mut sums: Vec<u128> = vec![0; list.len()];
    let mut p: usize = 0;
    assert(sums@.map_values(|v: u128| v as int) =~= gathered(hs, list@, s, 0));
    while p < hyps.len()
        invariant
            hs == hyps@,
            s == sep,
            forall|i: int| 0 <= i < hs.len() ==> (#[trigger] hs[i]).wf(),
            forall|i: int| 0 <= i < list@.len() ==> (#[trigger] list@[i]) < hs.len(),
            p <= hs.len(),
            sums@.len() == list@.len(),
            sums@.map_values(|v: u128| v as int) == gathered(hs, list@, s, p as int),
            forall|i: int|
                0 <= i < sums@.len() ==> (#[trigger] sums@[i]) <= p * 0xffff_ffff_ffff_ffff,
        decreases hyps.len() - p,
    {
        let w: u64 = hyps[p].weight;
        let ghost s0 = sums@;
        proof {
            assert(p * 0xffff_ffff_ffff_ffff + 0xffff_ffff_ffff_ffff == (p + 1)
                * 0xffff_ffff_ffff_ffff) by (nonlinear_arith);
            assert((p + 1) * 0xffff_ffff_ffff_ffff <= 0x1_0000_0000_0000_0000
                * 0xffff_ffff_ffff_ffff) by (nonlinear_arith)
                requires
                    p + 1 <= 0x1_0000_0000_0000_0000,
            ;
        }
        if let Some(i) = find_home(hyps, &list, p, sep) {
            assert(s0.map_values(|v: u128| v as int)[i as int] == s0[i as int]);
            assert(s0[i as int] <= p * 0xffff_ffff_ffff_ffff);
            sums.set(i, sums[i] + w as u128);
            assert(sums@.map_values(|v: u128| v as int) =~= gathered(hs, list@, s, p + 1));
        }
        proof {
            assert forall|i: int| 0 <= i < sums@.len() implies (#[trigger] sums@[i]) <= (p + 1)
                * 0xffff_ffff_ffff_ffff by {
                assert(s0[i] <= p * 0xffff_ffff_ffff_ffff);
            }
        }
        p += 1;
    }
    let mut out: Vec<(usize, u128)> = Vec::new();
    let mut i: usize = 0;
    while i < list.len()
        invariant
            i <= list@.len(),
            sums@.len() == list@.len(),
            out@.len() == i,
            forall|j: int| 0 <= j < i ==> (#[trigger] out@[j]).0 == list@[j] && out@[j].1 == sums@[j],
        decreases list.len() - i,
    {
        out.push((list[i], sums[i]));
        i += 1;
    }
    proof {
        let g = gathered(hs, list@, s, hs.len() as int);
        assert forall|j: int| 0 <= j < out@.len() implies (#[trigger] out@[j]).1 == g[j] by {
            assert(sums@.map_values(|v: u128| v as int)[j] == sums@[j]);
        }
    }
    out
}

proof fn lemma_peaks_range(hyps: Seq<Spot>, sep: int, n: int)
    requires
        0 <= n <= hyps.len() <= usize::MAX,
    ensures
        forall|k: int|
            0 <= k < peaks(hyps, sep, n).len() ==> #[trigger] peaks(hyps, sep, n)[k] < n,
    decreases n,
{
    if n > 0 {
        lemma_peaks_range(hyps, sep, n - 1);
        let (l, b) = (peaks(hyps, sep, n), peaks(hyps, sep, n - 1));
        assert forall|k: int| 0 <= k < l.len() implies #[trigger] l[k] < n by {
            if k < b.len() {
                assert(b[k] < n - 1);
            }
        }
    }
}

/// The sum of the first `n` weights.
pub open spec fn sum_of(w: Seq<int>, n: int) -> int
    decreases n,
{
    if n <= 0 {
        0
    } else {
        sum_of(w, n - 1) + w[n - 1]
    }
}

/// Weight of the first `n` hypotheses.
pub open spec fn total_weight(hyps: Seq<Spot>, n: int) -> int
    decreases n,
{
    if n <= 0 {
        0
    } else {
        total_weight(hyps, n - 1) + hyps[n - 1].weight
    }
}

proof fn lemma_sum_update(w: Seq<int>, i: int, v: int, n: int)
    requires
        0 <= i < w.len(),
        0 <= n <= w.len(),
    ensures
        sum_of(w.update(i, v), n) == sum_of(w, n) + if i < n {
            v - w[i]
        } else {
            0
        },
    decreases n,
{
    if n > 0 {
        lemma_sum_update(w, i, v, n - 1);
    }
}

proof fn lemma_sum_zero(w: Seq<int>, n: int)
    requires
        0 <= n <= w.len(),
        forall|i: int| 0 <= i < w.len() ==> #[trigger] w[i] == 0,
    ensures
        sum_of(w, n) == 0,
    decreases n,
{
    if n > 0 {
        lemma_sum_zero(w, n - 1);
    }
}

proof fn lemma_gathered_sum(hyps: Seq<Spot>, list: Seq<usize>, sep: int, n: int)
    requires
        0 <= n <= hyps.len(),
    ensures
        sum_of(gathered(hyps, list, sep, n), list.len() as int) <= total_weight(hyps, n),
        (forall|p: int| 0 <= p < n ==> #[trigger] home(hyps, list, p, sep, list.len() as int) is Some)
            ==> sum_of(gathered(hyps, list, sep, n), list.len() as int) == total_weight(hyps, n),
    decreases n,
{
    lemma_gathered_len(hyps, list, sep, n);
    if n > 0 {
        lemma_gathered_sum(hyps, list, sep, n - 1);
        lemma_gathered_len(hyps, list, sep, n - 1);
        lemma_home_range(hyps, list, n - 1, sep, list.len() as int);
        let b = gathered(hyps, list, sep, n - 1);
        if let Some(i) = home(hyps, list, n - 1, sep, list.len() as int) {
            lemma_sum_update(b, i, b[i] + hyps[n - 1].weight, list.len() as int);
        }
    } else {
        lemma_sum_zero(gathered(hyps, list, sep, 0), list.len() as int);
    }
}

proof fn lemma_home_found(hyps: Seq<Spot>, list: Seq<usize>, p: int, sep: int, k: int, m: int)
    requires
        0 <= k < m,
        list[k] == p || near(hyps[p], hyps[list[k] as int], sep),
    ensures
        home(hyps, list, p, sep, m) is Some,
    decreases m,
{
    if k < m - 1 {
        lemma_home_found(hyps, list, p, sep, k, m - 1);
    }
}

/// As long as there is room for every peak no weight is lost, and none is ever made up.
pub proof fn law_weight_is_kept(hyps: Seq<Spot>, sep: int, k: int)
    requires
        hyps.len() <= usize::MAX,
        0 < sep,
        0 <= k,
    ensures
        ({
            let n = hyps.len() as int;
            let list = top_peaks(hyps, sep, k);
            let w = gathered(hyps, list, sep, n);
            &&& list.len() <= k
            &&& sum_of(w, w.len() as int) <= total_weight(hyps, n)
            &&& peaks(hyps, sep, n).len() <= k ==> sum_of(w, w.len() as int) == total_weight(
                hyps,
                n,
            )
        }),
{
    let n = hyps.len() as int;
    let list = top_peaks(hyps, sep, k);
    lemma_gathered_len(hyps, list, sep, n);
    lemma_gathered_sum(hyps, list, sep, n);
    law_peaks(hyps, sep, n);
    if peaks(hyps, sep, n).len() <= k {
        assert forall|p: int| 0 <= p < n implies #[trigger] home(
            hyps,
            list,
            p,
            sep,
            list.len() as int,
        ) is Some by {
            assert(is_covered(hyps, list, p, sep));
            let j = choose|j: int|
                0 <= j < list.len() && near(hyps[p], hyps[#[trigger] list[j] as int], sep);
            lemma_home_found(hyps, list, p, sep, j, list.len() as int);
        }
    }
}

/// Weighted sums of the first `n` hypotheses: of 1, of each coordinate, and of the square
/// of the distance from the origin.
pub open spec fn moments(hyps: Seq<Spot>, n: int) -> (int, int, int, int)
    decreases n,
{
    if n <= 0 {
        (0, 0, 0, 0)
    } else {
        let (w, x, y, q) = moments(hyps, n - 1);
        let h = hyps[n - 1];
        (
            w + h.weight,
            x + h.weight * h.x,
            y + h.weight * h.y,
            q + h.weight * (h.x * h.x + h.y * h.y),
        )
    }
}

/// The square of the total weight times the variance of the first `n` hypotheses.
pub open spec fn scaled_variance(hyps: Seq<Spot>, n: int) -> int {
    let (w, x, y, q) = moments(hyps, n);
    w * q - x * x - y * y
}

/// Weighted sum of the squared distances of the first `n` hypotheses from a point.
spec fn moment_about(hyps: Seq<Spot>, px: int, py: int, n: int) -> int {
    let (w, x, y, q) = moments(hyps, n);
    q - 2 * (px * x + py * y) + w * (px * px + py * py)
}

proof fn lemma_axis(m: int, a: int, p: int, x: int)
    ensures
        p * (x + m * a) == p * x + p * (m * a),
        m * ((a - p) * (a - p)) == m * (a * a) - 2 * (p * (m * a)) + m * (p * p),
{
    assert(p * (x + m * a) == p * x + p * (m * a)) by (nonlinear_arith);
    assert((a - p) * (a - p) == a * a - 2 * (p * a) + p * p) by (nonlinear_arith);
    let (aa, pa, pp) = (a * a, p * a, p * p);
    assert(m * (aa - 2 * pa + pp) == m * aa - 2 * (m * pa) + m * pp) by (nonlinear_arith);
    assert(m * pa == p * (m * a)) by (nonlinear_arith)
        requires
            pa == p * a,
    ;
}

proof fn lemma_split(m: int, a: int, b: int)
    ensures
        m * (a + b) == m * a + m * b,
{
    assert(m * (a + b) == m * a + m * b) by (nonlinear_arith);
}

proof fn lemma_moment_about(hyps: Seq<Spot>, px: int, py: int, n: int)
    requires
        0 <= n <= hyps.len(),
    ensures
        0 <= moment_about(hyps, px, py, n),
        n > 0 ==> moment_about(hyps, px, py, n) == moment_about(hyps, px, py, n - 1) + hyps[n
            - 1].weight * ((hyps[n - 1].x - px) * (hyps[n - 1].x - px) + (hyps[n - 1].y - py) * (
        hyps[n - 1].y - py)),
    decreases n,
{
    if n <= 0 {
        assert(0 - 2 * (px * 0 + py * 0) + 0 * (px * px + py * py) == 0) by (nonlinear_arith);
    } else {
        lemma_moment_about(hyps, px, py, n - 1);
        let h = hyps[n - 1];
        let (w, x, y, q) = moments(hyps, n - 1);
        let (m, a, b) = (h.weight as int, h.x as int, h.y as int);
        lemma_axis(m, a, px, x);
        lemma_axis(m, b, py, y);
        lemma_split(m, a * a, b * b);
        lemma_split(m, px * px, py * py);
        lemma_split(m, (a - px) * (a - px), (b - py) * (b - py));
        let c = px * px + py * py;
        assert((w + m) * c == w * c + m * c) by (nonlinear_arith);
        assert(0 <= m * ((a - px) * (a - px) + (b - py) * (b - py))) by (nonlinear_arith)
            requires
                0 <= m,
        ;
    }
}

/// One more hypothesis adds its weight times the sum of the squared distances from it.
proof fn lemma_variance_step(hyps: Seq<Spot>, n: int)
    requires
        0 < n <= hyps.len(),
    ensures
        scaled_variance(hyps, n) == scaled_variance(hyps, n - 1) + hyps[n - 1].weight
            * moment_about(hyps, hyps[n - 1].x as int, hyps[n - 1].y as int, n - 1),
{
    let h = hyps[n - 1];
    let (w, x, y, q) = moments(hyps, n - 1);
    let (m, a, b) = (h.weight as int, h.x as int, h.y as int);
    let t = q - 2 * (a * x + b * y) + w * (a * a + b * b);
    let c = a * a + b * b;
    let (ma, mb, mc) = (m * a, m * b, m * c);
    assert((w + m) * (q + mc) == w * q + w * mc + m * q + m * mc) by (nonlinear_arith);
    assert((x + ma) * (x + ma) == x * x + 2 * (x * ma) + ma * ma) by (nonlinear_arith);
    assert((y + mb) * (y + mb) == y * y + 2 * (y * mb) + mb * mb) by (nonlinear_arith);
    assert(w * mc == m * (w * c)) by (nonlinear_arith)
        requires
            mc == m * c,
    ;
    assert(x * ma == m * (a * x)) by (nonlinear_arith)
        requires
            ma == m * a,
    ;
    assert(y * mb == m * (b * y)) by (nonlinear_arith)
        requires
            mb == m * b,
    ;
    assert(m * mc == ma * ma + mb * mb) by (nonlinear_arith)
        requires
            ma == m * a,
            mb == m * b,
            mc == m * c,
            c == a * a + b * b,
    ;
    let (ax, by) = (a * x, b * y);
    let wc = w * c;
    assert(m * t == m * q - 2 * (m * ax + m * by) + m * wc) by (nonlinear_arith)
        requires
            t == q - 2 * (ax + by) + wc,
    ;
}

/// A variance is never negative.
pub proof fn lemma_variance(hyps: Seq<Spot>, n: int)
    requires
        0 <= n <= hyps.len(),
    ensures
        0 <= scaled_variance(hyps, n),
    decreases n,
{
    if n <= 0 {
        assert(moments(hyps, n) == (0int, 0int, 0int, 0int));
        assert(0 * 0 - 0 * 0 - 0 * 0 == 0int);
    } else {
        lemma_variance(hyps, n - 1);
        lemma_variance_step(hyps, n);
        let h = hyps[n - 1];
        lemma_moment_about(hyps, h.x as int, h.y as int, n - 1);
        let (m, t) = (h.weight as int, moment_about(hyps, h.x as int, h.y as int, n - 1));
        assert(0 <= m * t) by (nonlinear_arith)
            requires
                0 <= m,
                0 <= t,
        ;
    }
}

/// The weighted sums of the hypotheses and their product fit a machine word.
pub open spec fn spread_ok(hyps: Seq<Spot>) -> bool {
    let (w, x, y, q) = moments(hyps, hyps.len() as int);
    w <= u128::MAX && w * q <= u128::MAX
}

/// The sums over more hypotheses are no smaller, and none is negative.
proof fn lemma_moments_grow(hyps: Seq<Spot>, k: int, n: int)
    requires
        0 <= k <= n <= hyps.len(),
    ensures
        0 <= moments(hyps, k).0 <= moments(hyps, n).0,
        0 <= moments(hyps, k).3 <= moments(hyps, n).3,
        moments(hyps, k).0 == 0 ==> moments(hyps, k).3 == 0,
    decreases n,
{
    if n > 0 {
        let h = hyps[n - 1];
        let (m, c) = (h.weight as int, h.x * h.x + h.y * h.y);
        assert(0 <= c) by (nonlinear_arith)
            requires
                c == h.x * h.x + h.y * h.y,
        ;
        assert(0 <= m * c && (m == 0 ==> m * c == 0)) by (nonlinear_arith)
            requires
                0 <= m,
                0 <= c,
        ;
        if k < n {
            lemma_moments_grow(hyps, k, n - 1);
        } else {
            lemma_moments_grow(hyps, n - 1, n - 1);
        }
    }
}

/// Bounds of the sums over the first `k` hypotheses.
proof fn lemma_moments_fit(hyps: Seq<Spot>, k: int)
    requires
        spread_ok(hyps),
        0 <= k <= hyps.len(),
    ensures
        ({
            let (w, x, y, q) = moments(hyps, k);
            &&& 0 <= w <= u128::MAX
            &&& 0 <= q <= u128::MAX
            &&& 0 <= w * q <= u128::MAX
            &&& 0 <= x * x && 0 <= y * y
            &&& x * x + y * y <= w * q
            &&& -0xffff_ffff_ffff_ffff <= x <= 0xffff_ffff_ffff_ffff
            &&& -0xffff_ffff_ffff_ffff <= y <= 0xffff_ffff_ffff_ffff
        }),
{
    let n = hyps.len() as int;
    lemma_moments_grow(hyps, k, n);
    lemma_variance(hyps, k);
    let (w, x, y, q) = moments(hyps, k);
    let (gw, gq) = (moments(hyps, n).0, moments(hyps, n).3);
    assert(0 <= w * q <= gw * gq) by (nonlinear_arith)
        requires
            0 <= w <= gw,
            0 <= q <= gq,
    ;
    assert(q <= w * q) by (nonlinear_arith)
        requires
            0 <= q,
            0 <= w,
            w == 0 ==> q == 0,
    ;
    assert(0 <= x * x && 0 <= y * y) by (nonlinear_arith);
    lemma_root_range(x);
    lemma_root_range(y);
}

proof fn lemma_root_range(x: int)
    requires
        x * x <= u128::MAX,
    ensures
        -0xffff_ffff_ffff_ffff <= x <= 0xffff_ffff_ffff_ffff,
{
    assert(-0xffff_ffff_ffff_ffff <= x <= 0xffff_ffff_ffff_ffff) by (nonlinear_arith)
        requires
            x * x <= 0xffff_ffff_ffff_ffff_ffff_ffff_ffff_ffff,
    ;
}

/// The whole part of a square root.
pub fn root(v: u128) -> (r: u64)
    ensures
        r * r <= v < (r + 1) * (r + 1),
{
    let mut lo: u128 = 0;
    let mut hi: u128 = 0x1_0000_0000_0000_0000;
    proof {
        assert(0x1_0000_0000_0000_0000int * 0x1_0000_0000_0000_0000
            == 0x1_0000_0000_0000_0000_0000_0000_0000_0000) by (nonlinear_arith);
    }
    while hi - lo > 1
        invariant
            lo < hi <= 0x1_0000_0000_0000_0000,
            lo * lo <= v,
            v < hi * hi,
        decreases hi - lo,
    {
        let mid: u128 = lo + (hi - lo) / 2;
        proof {
            lemma_square(mid as int, 0xffff_ffff_ffff_ffff);
        }
        if mid * mid <= v {
            lo = mid;
        } else {
            hi = mid;
        }
    }
    lo as u64
}

/// The size of a number.
fn size_of(x: i128) -> (r: u128)
    requires
        -0xffff_ffff_ffff_ffff <= x <= 0xffff_ffff_ffff_ffff,
    ensures
        r * r == x * x,
        r <= 0xffff_ffff_ffff_ffff,
{
    if x >= 0 {
        x as u128
    } else {
        assert((-x) * (-x) == x * x) by (nonlinear_arith);
        (-x) as u128
    }
}

/// The square of a number.
fn square(a: i64) -> (r: u128)
    ensures
        r == a * a,
        r <= 0x4000_0000_0000_0000_0000_0000_0000_0000,
{
    proof {
        lemma_square(a as int, 0x8000_0000_0000_0000);
    }
    (a as i128 * a as i128) as u128
}

/// How far hypotheses are spread, in millionths of a metre: the root of their mean squared
/// distance from their mean. Without at least two of them, or without weight, they are not
/// spread at all.
pub fn spread_m(hyps: &Vec<Spot>) -> (r: u64)
    requires
        spread_ok(hyps@),
    ensures
        ({
            let n = hyps@.len() as int;
            let w = moments(hyps@, n).0;
            let v = scaled_variance(hyps@, n);
            if n < 2 || w == 0 {
                r == 0
            } else {
                (r * r) * (w * w) <= v && v < ((r + 1) * (r + 1)) * (w * w)
            }
        }),
{
    let n: usize = hyps.len();
    if n < 2 {
        return 0;
    }
    let mut w: u128 = 0;
    let mut x: i128 = 0;
    let mut y: i128 = 0;
    let mut q: u128 = 0;
    let mut k: usize = 0;
    while k < n
        invariant
            n == hyps@.len(),
            spread_ok(hyps@),
            k <= n,
            (w as int, x as int, y as int, q as int) == moments(hyps@, k as int),
        decreases n - k,
    {
        let h: Spot = hyps[k];
        let c: u128 = square(h.x) + square(h.y);
        proof {
            lemma_moments_fit(hyps@, k as int);
            lemma_moments_fit(hyps@, k + 1);
            let (m, a, b) = (h.weight as int, h.x as int, h.y as int);
            assert(-0x8000_0000_0000_0000_0000_0000_0000_0000 < m * a
                < 0x8000_0000_0000_0000_0000_0000_0000_0000) by (nonlinear_arith)
                requires
                    0 <= m <= 0xffff_ffff_ffff_ffff,
                    -0x8000_0000_0000_0000 <= a < 0x8000_0000_0000_0000,
            ;
            assert(-0x8000_0000_0000_0000_0000_0000_0000_0000 < m * b
                < 0x8000_0000_0000_0000_0000_0000_0000_0000) by (nonlinear_arith)
                requires
                    0 <= m <= 0xffff_ffff_ffff_ffff,
                    -0x8000_0000_0000_0000 <= b < 0x8000_0000_0000_0000,
            ;
            assert(0 <= m * c) by (nonlinear_arith)
                requires
                    0 <= m,
                    0 <= c,
            ;
        }
        w = w + h.weight as u128;
        x = x + h.weight as i128 * h.x as i128;
        y = y + h.weight as i128 * h.y as i128;
        q = q + h.weight as u128 * c;
        k += 1;
    }
    if w == 0 {
        return 0;
    }
    proof {
        lemma_moments_fit(hyps@, n as int);
    }
    let (sx, sy) = (size_of(x), size_of(y));
    let v: u128 = w * q - sx * sx - sy * sy;
    let u: u128 = v / w / w;
    let r: u64 = root(u);
    proof {
        let (gv, gw, gd, gu) = (v as int, w as int, w * w, u as int);
        vstd::arithmetic::div_mod::lemma_div_denominator(gv, gw, gw);
        assert(gd >= 1) by (nonlinear_arith)
            requires
                gw >= 1,
                gd == gw * gw,
        ;
        vstd::arithmetic::div_mod::lemma_fundamental_div_mod(gv, gd);
        vstd::arithmetic::div_mod::lemma_mod_bound(gv, gd);
        let (a, b) = (r * r, (r + 1) * (r + 1));
        assert(a * gd <= gv && gv < b * gd) by (nonlinear_arith)
            requires
                gv == gd * gu + gv % gd,
                0 <= gv % gd,
                gv % gd < gd,
                a <= gu,
                gu + 1 <= b,
                0 < gd,
        ;
    }
    r
}

/// The sum, over the first `n` hypotheses, of the weight times the squared distance from
/// hypothesis `j`.
pub open spec fn squares_to(hyps: Seq<Spot>, j: int, n: int) -> int
    decreases n,
{
    if n <= 0 {
        0
    } else {
        squares_to(hyps, j, n - 1) + hyps[n - 1].weight * dist2(hyps[n - 1], hyps[j])
    }
}

/// The sum, over all pairs of the first `n` hypotheses, of both weights times the squared
/// distance.
pub open spec fn pair_squares(hyps: Seq<Spot>, n: int) -> int
    decreases n,
{
    if n <= 0 {
        0
    } else {
        pair_squares(hyps, n - 1) + hyps[n - 1].weight * squares_to(hyps, n - 1, n - 1)
    }
}

/// The variance measures how far the hypotheses are from each other: it is the sum of the
/// squared distances of all pairs, weighted with both weights.
pub proof fn law_variance_is_pair_distance(hyps: Seq<Spot>, n: int)
    requires
        0 <= n <= hyps.len(),
    ensures
        scaled_variance(hyps, n) == pair_squares(hyps, n),
    decreases n,
{
    if n <= 0 {
        assert(moments(hyps, n) == (0int, 0int, 0int, 0int));
        assert(0 * 0 - 0 * 0 - 0 * 0 == 0int);
    } else {
        law_variance_is_pair_distance(hyps, n - 1);
        lemma_variance_step(hyps, n);
        lemma_squares(hyps, n - 1, n - 1);
    }
}

proof fn lemma_squares(hyps: Seq<Spot>, j: int, n: int)
    requires
        0 <= n <= hyps.len(),
    ensures
        moment_about(hyps, hyps[j].x as int, hyps[j].y as int, n) == squares_to(hyps, j, n),
    decreases n,
{
    let (px, py) = (hyps[j].x as int, hyps[j].y as int);
    lemma_moment_about(hyps, px, py, n);
    if n <= 0 {
        assert(0 - 2 * (px * 0 + py * 0) + 0 * (px * px + py * py) == 0) by (nonlinear_arith);
    } else {
        lemma_squares(hyps, j, n - 1);
    }
}

/// The weight of the first `n` hypotheses that belong to mode `i`.
pub open spec fn weight_of_mode(
    hyps: Seq<Spot>,
    list: Seq<usize>,
    sep: int,
    i: int,
    n: int,
) -> int
    decreases n,
{
    if n <= 0 {
        0
    } else {
        weight_of_mode(hyps, list, sep, i, n - 1) + if home(
            hyps,
            list,
            n - 1,
            sep,
            list.len() as int,
        ) == Some(i) {
            hyps[n - 1].weight as int
        } else {
            0
        }
    }
}

/// A mode has the weight of the hypotheses that belong to it.
pub proof fn law_mode_has_its_weight(
    hyps: Seq<Spot>,
    list: Seq<usize>,
    sep: int,
    i: int,
    n: int,
)
    requires
        0 <= n <= hyps.len(),
        0 <= i < list.len(),
    ensures
        gathered(hyps, list, sep, n).len() == list.len(),
        gathered(hyps, list, sep, n)[i] == weight_of_mode(hyps, list, sep, i, n),
    decreases n,
{
    if n > 0 {
        law_mode_has_its_weight(hyps, list, sep, i, n - 1);
        lemma_home_range(hyps, list, n - 1, sep, list.len() as int);
    }
}

/// A peak belongs to itself.
pub proof fn law_peak_is_its_own_home(hyps: Seq<Spot>, list: Seq<usize>, sep: int, k: int)
    requires
        0 <= k < list.len(),
        0 < sep,
        forall|a: int, b: int| 0 <= a < b < list.len() ==> #[trigger] list[a] != #[trigger] list[b],
        forall|a: int, b: int|
            0 <= a < list.len() && 0 <= b < list.len() && a != b ==> !near(
                hyps[#[trigger] list[a] as int],
                hyps[#[trigger] list[b] as int],
                sep,
            ),
    ensures
        home(hyps, list, list[k] as int, sep, list.len() as int) == Some(k),
{
    lemma_own_home(hyps, list, sep, k, list.len() as int);
}

proof fn lemma_own_home(hyps: Seq<Spot>, list: Seq<usize>, sep: int, k: int, m: int)
    requires
        0 <= k < list.len(),
        0 <= m <= list.len(),
        forall|a: int, b: int| 0 <= a < b < list.len() ==> #[trigger] list[a] != #[trigger] list[b],
        forall|a: int, b: int|
            0 <= a < list.len() && 0 <= b < list.len() && a != b ==> !near(
                hyps[#[trigger] list[a] as int],
                hyps[#[trigger] list[b] as int],
                sep,
            ),
    ensures
        m > k ==> home(hyps, list, list[k] as int, sep, m) == Some(k),
        m <= k ==> home(hyps, list, list[k] as int, sep, m) is None,
    decreases m,
{
    if m > 0 {
        lemma_own_home(hyps, list, sep, k, m - 1);
        if m - 1 != k {
            assert(!near(hyps[list[k] as int], hyps[list[m - 1] as int], sep));
            if m - 1 < k {
                assert(list[m - 1] != list[k]);
            } else {
                assert(list[k] != list[m - 1]);
            }
        }
    }
}

} // verus!
