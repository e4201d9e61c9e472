//! Costs of hypotheses, and how they spread: the least cost of getting from one
//! hypothesis to another.
//!
//! A cost is a negative logarithm of a likelihood in a fixed point format; `FAR` stands
//! for a hypothesis that is out of the question.
use vstd::prelude::*;

use crate::chamfer::abs;

verus! {

/// The cost of a hypothesis that is out of the question.
pub const FAR: u64 = u64::MAX;

/// The sum of two costs, `FAR` at most.
pub open spec fn plus(a: int, b: int) -> int {
    if a + b >= FAR {
        FAR as int
    } else {
        a + b
    }
}

/// Distance of two places on a line or on a ring of `n` places.
pub open spec fn apart(i: int, k: int, n: int, ring: bool) -> int {
    let d = abs(i - k);
    if ring && n - d < d {
        n - d
    } else {
        d
    }
}

/// `r` is the least cost of coming to place `i` of a line from any of its places, where
/// a step costs `step`.
pub open spec fn is_least(line: Seq<u64>, i: int, step: int, ring: bool, r: int) -> bool {
    let n = line.len() as int;
    &&& forall|k: int| 0 <= k < n ==> r <= plus(#[trigger] line[k] as int, step * apart(i, k, n, ring))
    &&& exists|k: int|
        0 <= k < n && r == plus(#[trigger] line[k] as int, step * apart(i, k, n, ring))
}

/// `new` holds the least costs of coming to each place of the line `old`.
pub open spec fn spread_over(old: Seq<u64>, new: Seq<u64>, step: int, ring: bool) -> bool {
    &&& new.len() == old.len()
    &&& forall|i: int|
        0 <= i < new.len() ==> is_least(old, i, step, ring, #[trigger] new[i] as int)
}

/// Some place of the line leads to place `i` for no more than `r`.
spec fn backed(old: Seq<u64>, i: int, step: int, ring: bool, r: int) -> bool {
    exists|k: int|
        0 <= k < old.len() && r >= plus(
            #[trigger] old[k] as int,
            step * apart(i, k, old.len() as int, ring),
        )
}

proof fn lemma_backed_step(
    old: Seq<u64>,
    i: int,
    j: int,
    step: int,
    ring: bool,
    r: int,
)
    requires
        backed(old, i, step, ring, r),
        0 <= i < old.len(),
        0 <= j < old.len(),
        0 <= step,
        0 <= r <= FAR,
        apart(i, j, old.len() as int, ring) <= 1,
    ensures
        backed(old, j, step, ring, plus(r, step)),
{
    let n = old.len() as int;
    let k = choose|k: int|
        0 <= k < n && r >= plus(#[trigger] old[k] as int, step * apart(i, k, n, ring));
    let (a, b) = (apart(i, k, n, ring), apart(j, k, n, ring));
    assert(0 <= a && 0 <= b <= a + 1);
    assert(0 <= step * b <= step * a + step) by (nonlinear_arith)
        requires
            0 <= step,
            0 <= b <= a + 1,
    ;
    assert(plus(r, step) >= plus(old[k] as int, step * b));
}

proof fn lemma_backed_self(old: Seq<u64>, i: int, step: int, ring: bool)
    requires
        0 <= i < old.len(),
    ensures
        backed(old, i, step, ring, old[i] as int),
{
    assert(apart(i, i, old.len() as int, ring) == 0);
    assert(step * 0 == 0);
    assert(old[i] as int >= plus(
        old[i] as int,
        step * apart(i, i, old.len() as int, ring),
    ));
}

/// A value that is backed and not beaten is the least.
proof fn lemma_least(old: Seq<u64>, i: int, step: int, ring: bool, r: int)
    requires
        backed(old, i, step, ring, r),
        forall|k: int|
            0 <= k < old.len() ==> r <= plus(
                #[trigger] old[k] as int,
                step * apart(i, k, old.len() as int, ring),
            ),
    ensures
        is_least(old, i, step, ring, r),
{
    let n = old.len() as int;
    let k = choose|k: int|
        0 <= k < n && r >= plus(#[trigger] old[k] as int, step * apart(i, k, n, ring));
    assert(r == plus(old[k] as int, step * apart(i, k, n, ring)));
}

/// Lowers place `to` to what place `from` has and a step more, if that is lower.
fn lower(line: &mut Vec<u64>, from: usize, to: usize, step: u64)
    requires
        from < old(line)@.len(),
        to < old(line)@.len(),
    ensures
        final(line)@ == old(line)@.update(
            to as int,
            if plus(old(line)@[from as int] as int, step as int) < old(line)@[to as int] {
                plus(old(line)@[from as int] as int, step as int) as u64
            } else {
                old(line)@[to as int]
            },
        ),
{
    let p: u64 = line[from].saturating_add(step);
    let ghost l = line@;
    if p < line[to] {
        line.set(to, p);
    } else {
        assert(line@ =~= l.update(to as int, l[to as int]));
    }
}

/// Every value is backed, and none has been raised.
spec fn sound(old: Seq<u64>, line: Seq<u64>, step: int, ring: bool) -> bool {
    &&& line.len() == old.len()
    &&& forall|i: int|
        0 <= i < line.len() ==> #[trigger] line[i] <= old[i] && backed(
            old,
            i,
            step,
            ring,
            line[i] as int,
        )
}

proof fn lemma_lower_sound(
    old: Seq<u64>,
    line: Seq<u64>,
    from: int,
    to: int,
    step: int,
    ring: bool,
)
    requires
        sound(old, line, step, ring),
        0 <= from < line.len(),
        0 <= to < line.len(),
        0 <= step,
        apart(from, to, old.len() as int, ring) <= 1,
    ensures
        ({
            let p = plus(line[from] as int, step);
            let v = if p < line[to] {
                p as u64
            } else {
                line[to]
            };
            sound(old, line.update(to, v), step, ring)
        }),
{
    let p = plus(line[from] as int, step);
    let v = if p < line[to] {
        p as u64
    } else {
        line[to]
    };
    lemma_backed_step(old, from, to, step, ring, line[from] as int);
    let new = line.update(to, v);
    assert forall|i: int| 0 <= i < new.len() implies #[trigger] new[i] <= old[i] && backed(
        old,
        i,
        step,
        ring,
        new[i] as int,
    ) by {
        assert(line[i] <= old[i]);
    }
}

/// Place `i` costs no more than what `steps` steps from place `k` cost.
#[verifier::opaque]
spec fn within(old: Seq<u64>, line: Seq<u64>, i: int, k: int, step: int, steps: int) -> bool {
    line[i] <= plus(old[k] as int, step * steps)
}

proof fn lemma_within_self(old: Seq<u64>, line: Seq<u64>, i: int, step: int)
    requires
        line[i] <= old[i],
    ensures
        within(old, line, i, i, step, 0),
{
    reveal(within);
    assert(step * 0 == 0);
}

proof fn lemma_within_kept(
    old: Seq<u64>,
    before: Seq<u64>,
    line: Seq<u64>,
    i: int,
    k: int,
    step: int,
    steps: int,
)
    requires
        within(old, before, i, k, step, steps),
        line[i] <= before[i],
    ensures
        within(old, line, i, k, step, steps),
{
    reveal(within);
}

proof fn lemma_within_step(
    old: Seq<u64>,
    before: Seq<u64>,
    line: Seq<u64>,
    from: int,
    to: int,
    k: int,
    step: int,
    steps: int,
)
    requires
        within(old, before, from, k, step, steps),
        line[to] <= plus(before[from] as int, step),
        0 <= step,
        0 <= steps,
    ensures
        within(old, line, to, k, step, steps + 1),
{
    reveal(within);
    assert(step * steps + step == step * (steps + 1)) by (nonlinear_arith);
    assert(0 <= step * steps) by (nonlinear_arith)
        requires
            0 <= step,
            0 <= steps,
    ;
    lemma_plus(old[k] as int, step * steps, step);
}

/// The places before `i` cost no more than coming from the left.
spec fn from_left(old: Seq<u64>, line: Seq<u64>, step: int, i: int) -> bool {
    forall|a: int, k: int|
        0 <= k <= a < i ==> #[trigger] within(old, line, a, k, step, a - k)
}

/// The places from `i` on cost no more than coming from the right.
spec fn from_right(old: Seq<u64>, line: Seq<u64>, step: int, i: int) -> bool {
    forall|a: int, k: int|
        i <= a <= k < old.len() ==> #[trigger] within(old, line, a, k, step, k - a)
}

/// `line` is `before` with one place lowered by a step from another.
spec fn lowered(before: Seq<u64>, line: Seq<u64>, from: int, to: int, step: int) -> bool {
    let p = plus(before[from] as int, step);
    line == before.update(
        to,
        if p < before[to] {
            p as u64
        } else {
            before[to]
        },
    )
}

proof fn lemma_right(old: Seq<u64>, before: Seq<u64>, line: Seq<u64>, step: int, i: int)
    requires
        sound(old, before, step, false),
        0 < i < old.len(),
        0 <= step,
        lowered(before, line, i - 1, i, step),
        from_left(old, before, step, i),
    ensures
        from_left(old, line, step, i + 1),
{
    assert forall|a: int, k: int| 0 <= k <= a < i + 1 implies #[trigger] within(
        old,
        line,
        a,
        k,
        step,
        a - k,
    ) by {
        if a < i {
            assert(within(old, before, a, k, step, a - k));
            lemma_within_kept(old, before, line, a, k, step, a - k);
        } else if k == i {
            assert(before[i] <= old[i]);
            lemma_within_self(old, line, i, step);
        } else {
            assert(within(old, before, i - 1, k, step, i - 1 - k));
            lemma_within_step(old, before, line, i - 1, i, k, step, i - 1 - k);
        }
    }
}

proof fn lemma_left(old: Seq<u64>, before: Seq<u64>, line: Seq<u64>, step: int, i: int)
    requires
        sound(old, before, step, false),
        0 <= i < old.len() - 1,
        0 <= step,
        lowered(before, line, i + 1, i, step),
        from_right(old, before, step, i + 1),
        from_left(old, before, step, old.len() as int),
    ensures
        from_right(old, line, step, i),
        from_left(old, line, step, old.len() as int),
{
    assert forall|a: int, k: int| 0 <= k <= a < old.len() implies #[trigger] within(
        old,
        line,
        a,
        k,
        step,
        a - k,
    ) by {
        assert(within(old, before, a, k, step, a - k));
        lemma_within_kept(old, before, line, a, k, step, a - k);
    }
    assert forall|a: int, k: int| i <= a <= k < old.len() implies #[trigger] within(
        old,
        line,
        a,
        k,
        step,
        k - a,
    ) by {
        if a > i {
            assert(within(old, before, a, k, step, k - a));
            lemma_within_kept(old, before, line, a, k, step, k - a);
        } else if k == i {
            assert(before[i] <= old[i]);
            lemma_within_self(old, line, i, step);
        } else {
            assert(within(old, before, i + 1, k, step, k - (i + 1)));
            lemma_within_step(old, before, line, i + 1, i, k, step, k - (i + 1));
        }
    }
}

proof fn lemma_sound_start(old: Seq<u64>, step: int, ring: bool)
    ensures
        sound(old, old, step, ring),
{
    assert forall|i: int| 0 <= i < old.len() implies #[trigger] old[i] <= old[i] && backed(
        old,
        i,
        step,
        ring,
        old[i] as int,
    ) by {
        lemma_backed_self(old, i, step, ring);
    }
}

proof fn lemma_line_done(old: Seq<u64>, line: Seq<u64>, step: int)
    requires
        sound(old, line, step, false),
        from_left(old, line, step, old.len() as int),
        from_right(old, line, step, 0),
    ensures
        spread_over(old, line, step, false),
{
    assert forall|i: int| 0 <= i < line.len() implies is_least(
        old,
        i,
        step,
        false,
        #[trigger] line[i] as int,
    ) by {
        assert forall|k: int| 0 <= k < old.len() implies line[i] <= plus(
            #[trigger] old[k] as int,
            step * apart(i, k, old.len() as int, false),
        ) by {
            reveal(within);
            if k <= i {
                assert(within(old, line, i, k, step, i - k));
            } else {
                assert(within(old, line, i, k, step, k - i));
            }
        }
        lemma_least(old, i, step, false, line[i] as int);
    }
}

/// Spreads costs along a line: afterwards every place has the least cost of coming there.
pub fn relax_line(line: &mut Vec<u64>, step: u64)
    ensures
        spread_over(old(line)@, final(line)@, step as int, false),
{
    let ghost first = line@;
    let ghost s = step as int;
    let n: usize = line.len();
    proof {
        lemma_sound_start(first, s, false);
    }
    if n == 0 {
        return;
    }
    let mut i: usize = 1;
    proof {
        assert forall|a: int, k: int| 0 <= k <= a < 1 implies #[trigger] within(
            first,
            line@,
            a,
            k,
            s,
            a - k,
        ) by {
            lemma_within_self(first, line@, 0, s);
        }
    }
    while i < n
        invariant
            n == first.len(),
            s == step,
            1 <= i <= n,
            line@.len() == n,
            sound(first, line@, s, false),
            from_left(first, line@, s, i as int),
        decreases n - i,
    {
        let ghost before = line@;
        lower(line, i - 1, i, step);
        proof {
            lemma_lower_sound(first, before, i - 1, i as int, s, false);
            lemma_right(first, before, line@, s, i as int);
        }
        i += 1;
    }
    let mut j: usize = n - 1;
    proof {
        assert forall|a: int, k: int| j <= a <= k < n implies #[trigger] within(
            first,
            line@,
            a,
            k,
            s,
            k - a,
        ) by {
            assert(line@[a] <= first[a]);
            lemma_within_self(first, line@, a, s);
        }
    }
    while j > 0
        invariant
            n == first.len(),
            s == step,
            j < n,
            line@.len() == n,
            sound(first, line@, s, false),
            from_left(first, line@, s, n as int),
            from_right(first, line@, s, j as int),
        decreases j,
    {
        let ghost before = line@;
        lower(line, j, j - 1, step);
        proof {
            lemma_lower_sound(first, before, j as int, j - 1, s, false);
            lemma_left(first, before, line@, s, j - 1);
        }
        j -= 1;
    }
    proof {
        lemma_line_done(first, line@, s);
    }
}

/// Going round upwards, the visits before number `m` left no place dearer than coming
/// there.
#[verifier::opaque]
spec fn round_up(old: Seq<u64>, line: Seq<u64>, step: int, m: int) -> bool {
    let n = old.len() as int;
    forall|a: int, k: int|
        0 <= k <= a < m && k < n ==> #[trigger] within(old, line, a % n, k, step, a - k)
}

/// Going round downwards, the visits down to number `m` left no place dearer than coming
/// there.
#[verifier::opaque]
spec fn round_down(old: Seq<u64>, line: Seq<u64>, step: int, m: int) -> bool {
    let n = old.len() as int;
    forall|a: int, v: int|
        m <= a <= v < 2 * n ==> #[trigger] within(old, line, a % n, v % n, step, v - a)
}

proof fn lemma_next_place(a: int, n: int)
    requires
        0 <= a,
        0 < n,
    ensures
        0 <= a % n < n,
        0 <= (a + 1) % n < n,
        (a + 1) % n == if a % n == n - 1 {
            0
        } else {
            a % n + 1
        },
        apart(a % n, (a + 1) % n, n, true) <= 1,
        apart((a + 1) % n, a % n, n, true) <= 1,
{
    let (q, r) = (a / n, a % n);
    vstd::arithmetic::div_mod::lemma_fundamental_div_mod(a, n);
    vstd::arithmetic::div_mod::lemma_mod_bound(a, n);
    if r == n - 1 {
        assert(a + 1 == n * (q + 1) + 0) by (nonlinear_arith)
            requires
                a == n * q + r,
                r == n - 1,
        ;
        vstd::arithmetic::div_mod::lemma_fundamental_div_mod_converse(a + 1, n, q + 1, 0);
    } else {
        vstd::arithmetic::div_mod::lemma_fundamental_div_mod_converse(a + 1, n, q, r + 1);
    }
}

proof fn lemma_round_up(old: Seq<u64>, before: Seq<u64>, line: Seq<u64>, step: int, m: int)
    requires
        sound(old, before, step, true),
        0 < m,
        0 < old.len(),
        0 <= step,
        lowered(before, line, (m - 1) % (old.len() as int), m % (old.len() as int), step),
        round_up(old, before, step, m),
    ensures
        round_up(old, line, step, m + 1),
{
    reveal(round_up);
    let n = old.len() as int;
    lemma_next_place(m - 1, n);
    assert forall|a: int, k: int| 0 <= k <= a < m + 1 && k < n implies #[trigger] within(
        old,
        line,
        a % n,
        k,
        step,
        a - k,
    ) by {
        vstd::arithmetic::div_mod::lemma_mod_bound(a, n);
        if a < m {
            assert(within(old, before, a % n, k, step, a - k));
            lemma_within_kept(old, before, line, a % n, k, step, a - k);
        } else if k == m {
            vstd::arithmetic::div_mod::lemma_small_mod(m as nat, n as nat);
            assert(before[m] <= old[m]);
            lemma_within_self(old, line, m, step);
        } else {
            assert(within(old, before, (m - 1) % n, k, step, m - 1 - k));
            lemma_within_step(old, before, line, (m - 1) % n, m % n, k, step, m - 1 - k);
        }
    }
}

proof fn lemma_round_down(old: Seq<u64>, before: Seq<u64>, line: Seq<u64>, step: int, m: int)
    requires
        sound(old, before, step, true),
        0 < old.len(),
        0 <= m < 2 * old.len() - 1,
        0 <= step,
        lowered(before, line, (m + 1) % (old.len() as int), m % (old.len() as int), step),
        round_down(old, before, step, m + 1),
        round_up(old, before, step, 2 * old.len() as int),
    ensures
        round_down(old, line, step, m),
        round_up(old, line, step, 2 * old.len() as int),
{
    reveal(round_up);
    reveal(round_down);
    let n = old.len() as int;
    lemma_next_place(m, n);
    assert forall|a: int, k: int| 0 <= k <= a < 2 * n && k < n implies #[trigger] within(
        old,
        line,
        a % n,
        k,
        step,
        a - k,
    ) by {
        vstd::arithmetic::div_mod::lemma_mod_bound(a, n);
        assert(within(old, before, a % n, k, step, a - k));
        lemma_within_kept(old, before, line, a % n, k, step, a - k);
    }
    assert forall|a: int, v: int| m <= a <= v < 2 * n implies #[trigger] within(
        old,
        line,
        a % n,
        v % n,
        step,
        v - a,
    ) by {
        vstd::arithmetic::div_mod::lemma_mod_bound(a, n);
        vstd::arithmetic::div_mod::lemma_mod_bound(v, n);
        if a > m {
            assert(within(old, before, a % n, v % n, step, v - a));
            lemma_within_kept(old, before, line, a % n, v % n, step, v - a);
        } else if v == m {
            assert(before[m % n] <= old[m % n]);
            lemma_within_self(old, line, m % n, step);
        } else {
            assert(within(old, before, (m + 1) % n, v % n, step, v - (m + 1)));
            lemma_within_step(
                old,
                before,
                line,
                (m + 1) % n,
                m % n,
                v % n,
                step,
                v - (m + 1),
            );
        }
    }
}

proof fn lemma_round_up_start(old: Seq<u64>, step: int)
    requires
        0 < old.len(),
    ensures
        round_up(old, old, step, 1),
{
    reveal(round_up);
    let n = old.len() as int;
    assert forall|a: int, k: int| 0 <= k <= a < 1 && k < n implies #[trigger] within(
        old,
        old,
        a % n,
        k,
        step,
        a - k,
    ) by {
        vstd::arithmetic::div_mod::lemma_small_mod(0, n as nat);
        lemma_within_self(old, old, 0, step);
    }
}

proof fn lemma_round_down_start(old: Seq<u64>, line: Seq<u64>, step: int)
    requires
        0 < old.len(),
        sound(old, line, step, true),
    ensures
        round_down(old, line, step, 2 * old.len() - 1),
{
    reveal(round_down);
    let n = old.len() as int;
    assert forall|a: int, v: int| 2 * n - 1 <= a <= v < 2 * n implies #[trigger] within(
        old,
        line,
        a % n,
        v % n,
        step,
        v - a,
    ) by {
        vstd::arithmetic::div_mod::lemma_mod_bound(a, n);
        assert(line[a % n] <= old[a % n]);
        lemma_within_self(old, line, a % n, step);
    }
}

proof fn lemma_ring_done(old: Seq<u64>, line: Seq<u64>, step: int)
    requires
        sound(old, line, step, true),
        0 < old.len(),
        round_up(old, line, step, 2 * old.len() as int),
        round_down(old, line, step, 0),
    ensures
        spread_over(old, line, step, true),
{
    reveal(round_up);
    reveal(round_down);
    let n = old.len() as int;
    assert forall|i: int| 0 <= i < line.len() implies is_least(
        old,
        i,
        step,
        true,
        #[trigger] line[i] as int,
    ) by {
        assert forall|k: int| 0 <= k < n implies line[i] <= plus(
            #[trigger] old[k] as int,
            step * apart(i, k, n, true),
        ) by {
            reveal(within);
            vstd::arithmetic::div_mod::lemma_small_mod(i as nat, n as nat);
            vstd::arithmetic::div_mod::lemma_small_mod(k as nat, n as nat);
            vstd::arithmetic::div_mod::lemma_fundamental_div_mod_converse(i + n, n, 1, i);
            vstd::arithmetic::div_mod::lemma_fundamental_div_mod_converse(k + n, n, 1, k);
            if k <= i {
                assert(within(old, line, i % n, k, step, i - k));
                assert(within(old, line, i % n, (k + n) % n, step, k + n - i));
            } else {
                assert(within(old, line, i % n, k % n, step, k - i));
                assert(within(old, line, (i + n) % n, k, step, i + n - k));
            }
        }
        lemma_least(old, i, step, true, line[i] as int);
    }
}

/// Spreads costs round a ring: afterwards every place has the least cost of coming there.
pub fn relax_ring(line: &mut Vec<u64>, step: u64)
    requires
        2 * old(line)@.len() <= usize::MAX,
    ensures
        spread_over(old(line)@, final(line)@, step as int, true),
{
    let ghost first = line@;
    let ghost s = step as int;
    let n: usize = line.len();
    let ghost nn = n as int;
    proof {
        lemma_sound_start(first, s, true);
    }
    if n == 0 {
        return;
    }
    let mut m: usize = 1;
    proof {
        lemma_round_up_start(first, s);
    }
    while m < 2 * n
        invariant
            0 < n,
            n == first.len(),
            nn == n,
            2 * n <= usize::MAX,
            s == step,
            1 <= m <= 2 * n,
            line@.len() == n,
            sound(first, line@, s, true),
            round_up(first, line@, s, m as int),
        decreases 2 * n - m,
    {
        let ghost before = line@;
        proof {
            lemma_next_place(m - 1, nn);
        }
        lower(line, (m - 1) % n, m % n, step);
        proof {
            lemma_lower_sound(first, before, (m - 1) % nn, m as int % nn, s, true);
            lemma_round_up(first, before, line@, s, m as int);
        }
        m += 1;
    }
    let mut j: usize = 2 * n - 1;
    proof {
        lemma_round_down_start(first, line@, s);
    }
    while j > 0
        invariant
            0 < n,
            n == first.len(),
            nn == n,
            2 * n <= usize::MAX,
            s == step,
            j < 2 * n,
            line@.len() == n,
            sound(first, line@, s, true),
            round_up(first, line@, s, 2 * nn),
            round_down(first, line@, s, j as int),
        decreases j,
    {
        j -= 1;
        let ghost before = line@;
        proof {
            lemma_next_place(j as int, nn);
        }
        lower(line, (j + 1) % n, j % n, step);
        proof {
            lemma_lower_sound(first, before, (j + 1) % nn, j as int % nn, s, true);
            lemma_round_down(first, before, line@, s, j as int);
        }
    }
    proof {
        lemma_ring_done(first, line@, s);
    }
}

/// Adding twice is adding the sum.
proof fn lemma_plus(a: int, b: int, c: int)
    requires
        0 <= a,
        0 <= b,
        0 <= c,
    ensures
        plus(plus(a, b), c) == plus(a, b + c),
{
}

/// The distance of two places is that of the shorter way: zero only for the same place, the
/// same in both directions, and one more or less for a neighbour; on a ring the ends are
/// neighbours.
pub proof fn law_apart_is_the_shorter_way(i: int, k: int, n: int, ring: bool)
    requires
        0 <= i < n,
        0 <= k < n,
    ensures
        apart(i, k, n, ring) >= 0,
        apart(i, k, n, ring) == apart(k, i, n, ring),
        apart(i, k, n, ring) == 0 <==> i == k,
        !ring && k <= i ==> apart(i, k, n, ring) == i - k,
        ring ==> 2 * apart(i, k, n, ring) <= n,
        ring ==> apart(i, k, n, ring) == abs(i - k) || apart(i, k, n, ring) == n - abs(i - k),
        i + 1 < n ==> apart(i + 1, k, n, ring) <= apart(i, k, n, ring) + 1,
        i > 0 ==> apart(i - 1, k, n, ring) <= apart(i, k, n, ring) + 1,
        ring ==> apart(0, k, n, ring) <= apart(n - 1, k, n, ring) + 1,
        ring ==> apart(n - 1, k, n, ring) <= apart(0, k, n, ring) + 1,
{
}

/// Spreading raises no cost and brings none below all others, and afterwards no cost exceeds
/// that of a neighbour by more than a step; on a ring the ends are neighbours.
pub proof fn law_spread_is_smooth(
    old: Seq<u64>,
    new: Seq<u64>,
    step: int,
    ring: bool,
    i: int,
    j: int,
)
    requires
        spread_over(old, new, step, ring),
        0 <= step,
        0 <= i < new.len(),
        0 <= j < new.len(),
        i - j == 1 || j - i == 1 || (ring && i == 0 && j == new.len() - 1) || (ring && j == 0 && i
            == new.len() - 1),
    ensures
        new[i] <= old[i],
        new[i] <= new[j] + step,
        exists|k: int| 0 <= k < old.len() && #[trigger] old[k] <= new[i],
{
    let n = old.len() as int;
    assert(is_least(old, i, step, ring, new[i] as int));
    assert(is_least(old, j, step, ring, new[j] as int));
    assert(apart(i, i, n, ring) == 0);
    assert(step * 0 == 0);
    assert(new[i] <= plus(old[i] as int, step * apart(i, i, n, ring)));
    let k = choose|k: int|
        0 <= k < n && new[j] == plus(#[trigger] old[k] as int, step * apart(j, k, n, ring));
    law_apart_is_the_shorter_way(j, k, n, ring);
    law_apart_is_the_shorter_way(i, k, n, ring);
    let (a, b) = (apart(i, k, n, ring), apart(j, k, n, ring));
    assert(a <= b + 1);
    assert(step * a <= step * b + step) by (nonlinear_arith)
        requires
            a <= b + 1,
            0 <= step,
    ;
    assert(new[i] <= plus(old[k] as int, step * a));
    let l = choose|l: int|
        0 <= l < n && new[i] == plus(#[trigger] old[l] as int, step * apart(i, l, n, ring));
    law_apart_is_the_shorter_way(i, l, n, ring);
    let c = apart(i, l, n, ring);
    assert(step * c >= 0) by (nonlinear_arith)
        requires
            0 <= step,
            0 <= c,
    ;
    assert(old[l] <= new[i]);
}

/// A sum of costs is exact while it fits, and never beyond the largest cost.
pub proof fn law_plus_saturates(a: int, b: int, c: int)
    requires
        0 <= a <= FAR,
        0 <= b,
        0 <= c,
    ensures
        a + b < FAR ==> plus(a, b) == a + b,
        plus(FAR as int, b) == FAR,
        plus(a, b) <= FAR,
        plus(a, 0) == a,
        plus(plus(a, b), c) == plus(a, b + c),
        b <= c ==> plus(a, b) <= plus(a, c),
{
}

} // verus!
