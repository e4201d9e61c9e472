//! Where to drive to find out which of several places the robot is in.
//!
//! All hypotheses move along together. A displacement tells them apart when the map looks
//! different at its end; it can be driven when its end is free for every hypothesis.
use vstd::prelude::*;

verus! {

/// What the map looks like around a point: how well beams that end at the points of a
/// ring are explained.
pub type Signature = Vec<u8>;

/// What one displacement leads to: for every hypothesis what the map looks like there.
/// Only displacements that end in free places have one.
pub type Look = Option<Vec<Signature>>;

/// Difference of two levels.
pub open spec fn level_gap(a: u8, b: u8) -> int {
    if a >= b {
        a - b
    } else {
        b - a
    }
}

/// Difference of the first `n` points of two rings.
pub open spec fn ring_gap(a: Seq<u8>, b: Seq<u8>, n: int) -> int
    decreases n,
{
    if n <= 0 {
        0
    } else {
        ring_gap(a, b, n - 1) + level_gap(a[n - 1], b[n - 1])
    }
}

/// Differences between hypothesis `j` and the first `n` hypotheses.
pub open spec fn gaps_to(sigs: Seq<Signature>, j: int, n: int) -> int
    decreases n,
{
    if n <= 0 {
        0
    } else {
        gaps_to(sigs, j, n - 1) + ring_gap(sigs[n - 1]@, sigs[j]@, sigs[n - 1]@.len() as int)
    }
}

/// Differences between any two of the first `n` hypotheses.
pub open spec fn all_gaps(sigs: Seq<Signature>, n: int) -> int
    decreases n,
{
    if n <= 0 {
        0
    } else {
        all_gaps(sigs, n - 1) + gaps_to(sigs, n - 1, n - 1)
    }
}

/// How well a displacement tells the hypotheses apart.
pub open spec fn tells_apart(look: Look) -> int {
    match look {
        Some(sigs) => all_gaps(sigs@, sigs@.len() as int),
        None => -1,
    }
}

/// The first of the first `n` displacements that tells the hypotheses apart best, among
/// those that can be driven.
pub open spec fn best_look(looks: Seq<Look>, n: int) -> Option<int>
    decreases n,
{
    if n <= 0 {
        None
    } else {
        let b = best_look(looks, n - 1);
        match looks[n - 1] {
            None => b,
            Some(_) => match b {
                Some(k) => if tells_apart(looks[n - 1]) > tells_apart(looks[k]) {
                    Some(n - 1)
                } else {
                    b
                },
                None => Some(n - 1),
            },
        }
    }
}

/// All signatures of a displacement have the same number of points, and there are not too
/// many to add up.
pub open spec fn look_ok(look: Look) -> bool {
    match look {
        Some(sigs) => {
            &&& sigs@.len() <= 0xffff
            &&& forall|i: int|
                #![trigger sigs@[i]]
                0 <= i < sigs@.len() ==> sigs@[i]@.len() == sigs@[0]@.len() && sigs@[i]@.len()
                    <= 0xffff
        },
        None => true,
    }
}

proof fn lemma_ring_gap(a: Seq<u8>, b: Seq<u8>, n: int)
    requires
        0 <= n,
    ensures
        0 <= ring_gap(a, b, n) <= 255 * n,
    decreases n,
{
    if n > 0 {
        lemma_ring_gap(a, b, n - 1);
    }
}

fn ring_difference(a: &Vec<u8>, b: &Vec<u8>) -> (r: u64)
    requires
        a@.len() == b@.len(),
        a@.len() <= 0xffff,
    ensures
        r == ring_gap(a@, b@, a@.len() as int),
        r <= 0x100_0000,
{
    let mut sum: u64 = 0;
    let mut i: usize = 0;
    while i < a.len()
        invariant
            a@.len() == b@.len(),
            a@.len() <= 0xffff,
            i <= a@.len(),
            sum == ring_gap(a@, b@, i as int),
            sum <= 255 * i,
        decreases a.len() - i,
    {
        let (x, y) = (a[i], b[i]);
        let d: u8 = if x >= y {
            x - y
        } else {
            y - x
        };
        sum += d as u64;
        i += 1;
    }
    sum
}

fn difference(sigs: &Vec<Signature>) -> (r: u64)
    requires
        look_ok(Some(*sigs)),
    ensures
        r == all_gaps(sigs@, sigs@.len() as int),
{
    let n: usize = sigs.len();
    let mut sum: u64 = 0;
    let mut j: usize = 0;
    while j < n
        invariant
            look_ok(Some(*sigs)),
            n == sigs@.len(),
            n <= 0xffff,
            j <= n,
            sum == all_gaps(sigs@, j as int),
            sum <= j * 0x100_0000_0000,
        decreases n - j,
    {
        let mut part: u64 = 0;
        let mut i: usize = 0;
        while i < j
            invariant
                look_ok(Some(*sigs)),
                n == sigs@.len(),
                n <= 0xffff,
                i <= j < n,
                part == gaps_to(sigs@, j as int, i as int),
                part <= i * 0x100_0000,
            decreases j - i,
        {
            assert(sigs@[i as int]@.len() == sigs@[0]@.len());
            assert(sigs@[j as int]@.len() == sigs@[0]@.len());
            part += ring_difference(&sigs[i], &sigs[j]);
            i += 1;
        }
        sum += part;
        j += 1;
    }
    sum
}

/// Picks the displacement that tells the hypotheses apart best, the first of equals.
/// There is none with fewer than two hypotheses, or where the map looks the same
/// everywhere.
pub fn choose_displacement(hypotheses: usize, looks: &Vec<Look>) -> (r: Option<usize>)
    requires
        forall|k: int| 0 <= k < looks@.len() ==> look_ok(#[trigger] looks@[k]),
    ensures
        r == if hypotheses < 2 {
            None
        } else {
            match best_look(looks@, looks@.len() as int) {
                Some(k) => if tells_apart(looks@[k]) > 0 {
                    Some(k as usize)
                } else {
                    None
                },
                None => None,
            }
        },
{
    if hypotheses < 2 {
        return None;
    }
    let mut best: Option<(u64, usize)> = None;
    let mut k: usize = 0;
    while k < looks.len()
        invariant
            forall|k: int| 0 <= k < looks@.len() ==> look_ok(#[trigger] looks@[k]),
            k <= looks@.len(),
            match best_look(looks@, k as int) {
                Some(b) => 0 <= b < k && match best {
                    Some((s, i)) => i == b && s == tells_apart(looks@[b]),
                    None => false,
                },
                None => best is None,
            },
        decreases looks.len() - k,
    {
        assert(look_ok(looks@[k as int]));
        match &looks[k] {
            None => {},
            Some(sigs) => {
                let score: u64 = difference(sigs);
                let better: bool = match best {
                    Some((s, _)) => score > s,
                    None => true,
                };
                if better {
                    best = Some((score, k));
                }
            },
        }
        k += 1;
    }
    match best {
        Some((score, b)) => if score > 0 {
            Some(b)
        } else {
            None
        },
        None => None,
    }
}

proof fn lemma_best_look(looks: Seq<Look>, n: int)
    requires
        0 <= n <= looks.len(),
    ensures
        match best_look(looks, n) {
            Some(b) => 0 <= b < n && looks[b] is Some && forall|k: int|
                0 <= k < n ==> tells_apart(#[trigger] looks[k]) <= tells_apart(looks[b]),
            None => forall|k: int| 0 <= k < n ==> #[trigger] looks[k] is None,
        },
    decreases n,
{
    if n > 0 {
        lemma_best_look(looks, n - 1);
        assert forall|k: int| 0 <= k < n && looks[k] is Some implies tells_apart(
            #[trigger] looks[k],
        ) >= 0 by {
            let s = looks[k]->0;
            lemma_gaps(s@, s@.len() as int);
        }
    }
}

proof fn lemma_gaps(sigs: Seq<Signature>, n: int)
    requires
        0 <= n,
    ensures
        0 <= all_gaps(sigs, n),
    decreases n,
{
    if n > 0 {
        lemma_gaps(sigs, n - 1);
        lemma_gaps_to(sigs, n - 1, n - 1);
    }
}

proof fn lemma_gaps_to(sigs: Seq<Signature>, j: int, n: int)
    requires
        0 <= n,
    ensures
        0 <= gaps_to(sigs, j, n),
    decreases n,
{
    if n > 0 {
        lemma_gaps_to(sigs, j, n - 1);
        lemma_ring_gap(sigs[n - 1]@, sigs[j]@, sigs[n - 1]@.len() as int);
    }
}

/// No displacement that can be driven tells the hypotheses apart better than the one that
/// is picked.
pub proof fn law_displacement_is_best(looks: Seq<Look>, k: int)
    requires
        0 <= k < looks.len(),
        looks[k] is Some,
    ensures
        match best_look(looks, looks.len() as int) {
            Some(b) => looks[b] is Some && tells_apart(looks[k]) <= tells_apart(looks[b]),
            None => false,
        },
{
    lemma_best_look(looks, looks.len() as int);
}

/// The difference of two rings is the same in both orders, is never negative, and is zero
/// exactly where the rings show the same. A ring is not closer to another one than over a
/// third.
pub proof fn law_ring_gap_is_a_distance(a: Seq<u8>, b: Seq<u8>, c: Seq<u8>, n: int)
    requires
        0 <= n,
    ensures
        ring_gap(a, b, n) >= 0,
        ring_gap(a, b, n) == ring_gap(b, a, n),
        ring_gap(a, b, n) == 0 <==> forall|i: int| 0 <= i < n ==> #[trigger] a[i] == b[i],
        ring_gap(a, c, n) <= ring_gap(a, b, n) + ring_gap(b, c, n),
    decreases n,
{
    if n > 0 {
        law_ring_gap_is_a_distance(a, b, c, n - 1);
        if ring_gap(a, b, n) == 0 {
            assert(a[n - 1] == b[n - 1]);
        }
    }
}

/// Every level by which one ring is raised above another counts one.
pub proof fn law_ring_gap_counts_levels(a: Seq<u8>, b: Seq<u8>, n: int, i: int, v: u8)
    requires
        0 <= i < n <= a.len(),
        b[i] <= a[i] <= v,
    ensures
        ring_gap(a.update(i, v), b, n) == ring_gap(a, b, n) + (v - a[i]),
    decreases n,
{
    if i < n - 1 {
        law_ring_gap_counts_levels(a, b, n - 1, i, v);
    } else {
        lemma_gap_frame(a, b, n - 1, i, v);
    }
}

proof fn lemma_gap_frame(a: Seq<u8>, b: Seq<u8>, n: int, i: int, v: u8)
    requires
        n <= i < a.len(),
    ensures
        ring_gap(a.update(i, v), b, n) == ring_gap(a, b, n),
    decreases n,
{
    if n > 0 {
        lemma_gap_frame(a, b, n - 1, i, v);
    }
}

/// A look tells hypotheses apart exactly where two of their rings differ: every pair counts,
/// each once.
pub proof fn law_look_tells_pairs_apart(sigs: Seq<Signature>, n: int, i: int, j: int)
    requires
        0 <= i < j < n,
    ensures
        all_gaps(sigs, n) >= ring_gap(sigs[i]@, sigs[j]@, sigs[i]@.len() as int) >= 0,
        all_gaps(sigs, j) <= all_gaps(sigs, n),
    decreases n,
{
    lemma_gap_within(sigs, n - 1, n - 1, 0);
    law_ring_gap_is_a_distance(sigs[i]@, sigs[j]@, sigs[i]@, sigs[i]@.len() as int);
    if j < n - 1 {
        law_look_tells_pairs_apart(sigs, n - 1, i, j);
    } else {
        lemma_gaps_positive(sigs, n - 1);
        lemma_gap_within(sigs, j, j, i);
    }
}

/// Where all rings are the same, a look tells nothing apart.
pub proof fn law_same_rings_tell_nothing(sigs: Seq<Signature>, n: int)
    requires
        0 <= n <= sigs.len(),
        forall|i: int| 0 <= i < n ==> (#[trigger] sigs[i])@ == sigs[0]@,
    ensures
        all_gaps(sigs, n) == 0,
    decreases n,
{
    if n > 0 {
        law_same_rings_tell_nothing(sigs, n - 1);
        lemma_no_gaps(sigs, n - 1, n - 1);
    }
}

proof fn lemma_no_gaps(sigs: Seq<Signature>, j: int, n: int)
    requires
        0 <= n <= j < sigs.len(),
        forall|i: int| 0 <= i <= j ==> (#[trigger] sigs[i])@ == sigs[0]@,
    ensures
        gaps_to(sigs, j, n) == 0,
    decreases n,
{
    if n > 0 {
        lemma_no_gaps(sigs, j, n - 1);
        let (a, b) = (sigs[n - 1]@, sigs[j]@);
        law_ring_gap_is_a_distance(a, b, a, a.len() as int);
    }
}

proof fn lemma_gap_within(sigs: Seq<Signature>, j: int, n: int, i: int)
    requires
        0 <= n,
    ensures
        gaps_to(sigs, j, n) >= 0,
        0 <= i < n ==> gaps_to(sigs, j, n) >= ring_gap(
            sigs[i]@,
            sigs[j]@,
            sigs[i]@.len() as int,
        ),
    decreases n,
{
    if n > 0 {
        lemma_gap_within(sigs, j, n - 1, i);
        let a = sigs[n - 1]@;
        law_ring_gap_is_a_distance(a, sigs[j]@, a, a.len() as int);
    }
}

proof fn lemma_gaps_positive(sigs: Seq<Signature>, n: int)
    ensures
        all_gaps(sigs, n) >= 0,
    decreases n,
{
    if n > 0 {
        lemma_gaps_positive(sigs, n - 1);
        lemma_gap_within(sigs, n - 1, n - 1, 0);
    }
}

/// Among the looks that tell the most apart the first one is chosen, and no look is chosen
/// only where none can be had.
pub proof fn law_first_of_the_best_looks(looks: Seq<Look>, n: int)
    requires
        0 <= n <= looks.len(),
    ensures
        match best_look(looks, n) {
            Some(b) => {
                &&& 0 <= b < n
                &&& looks[b] is Some
                &&& forall|k: int|
                    0 <= k < n && #[trigger] looks[k] is Some ==> tells_apart(looks[k])
                        <= tells_apart(looks[b])
                &&& forall|k: int|
                    0 <= k < b && #[trigger] looks[k] is Some ==> tells_apart(looks[k])
                        < tells_apart(looks[b])
            },
            None => forall|k: int| 0 <= k < n ==> #[trigger] looks[k] is None,
        },
    decreases n,
{
    if n > 0 {
        law_first_of_the_best_looks(looks, n - 1);
    }
}

} // verus!
