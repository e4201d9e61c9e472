//! Paths: poses one after the other, and more of them in between.
//!
//! Coordinates are in millionths of a metre, headings in millionths of a degree.
use vstd::prelude::*;

use crate::belief::modes::root;
use crate::chamfer::abs;
use crate::transition::floor_div;

verus! {

/// A pose of a path.
#[derive(Clone, Copy, Debug, PartialEq, Eq, Structural)]
pub struct PathPose {
    pub x: i64,
    pub y: i64,
    pub yaw: i64,
}

/// The largest coordinate of a path.
pub const PATH_MAX: i64 = 0xff_ffff_ffff;

impl PathPose {
    /// The coordinates can be computed with.
    pub open spec fn wf(self) -> bool {
        -PATH_MAX <= self.x <= PATH_MAX && -PATH_MAX <= self.y <= PATH_MAX
    }
}

/// The square of the distance of two poses.
pub open spec fn gap2(p: PathPose, q: PathPose) -> int {
    (q.x - p.x) * (q.x - p.x) + (q.y - p.y) * (q.y - p.y)
}

/// `r` is the square root of `v`, rounded up.
pub open spec fn is_root_up(v: int, r: int) -> bool {
    0 <= r && r * r >= v && (r == 0 || (r - 1) * (r - 1) < v)
}

/// The square root of `v`, rounded up.
pub open spec fn root_up(v: int) -> int {
    choose|r: int| is_root_up(v, r)
}

proof fn lemma_root_up(v: int, r: int)
    requires
        is_root_up(v, r),
    ensures
        root_up(v) == r,
{
    let s = root_up(v);
    assert(is_root_up(v, s));
    if s < r {
        assert(s * s <= (r - 1) * (r - 1)) by (nonlinear_arith)
            requires
                0 <= s <= r - 1,
        ;
    }
    if r < s {
        assert(r * r <= (s - 1) * (s - 1)) by (nonlinear_arith)
            requires
                0 <= r <= s - 1,
        ;
    }
}

/// Every number has a square root, rounded up.
proof fn lemma_root_exists(v: int)
    requires
        0 <= v,
    ensures
        is_root_up(v, root_up(v)),
    decreases v,
{
    if v == 0 {
        assert(is_root_up(0, 0));
    } else {
        lemma_root_exists(v - 1);
        let r = root_up(v - 1);
        if r * r >= v {
            assert(is_root_up(v, r));
        } else {
            assert((r + 1) * (r + 1) >= v) by (nonlinear_arith)
                requires
                    r * r >= v - 1,
                    0 <= r,
            ;
            assert((r + 1 - 1) * (r + 1 - 1) == r * r);
            assert(is_root_up(v, r + 1));
        }
    }
}

/// Into how many parts the way between two poses is cut so that none is longer than
/// `spacing`.
pub open spec fn parts(p: PathPose, q: PathPose, spacing: int) -> int {
    (root_up(gap2(p, q)) + spacing - 1) / spacing
}

/// The pose after `k` of `n` parts of the way. It keeps the heading.
pub open spec fn on_way(p: PathPose, q: PathPose, k: int, n: int) -> PathPose {
    PathPose {
        x: (p.x + ((q.x - p.x) * k) / n) as i64,
        y: (p.y + ((q.y - p.y) * k) / n) as i64,
        yaw: p.yaw,
    }
}

/// The poses after 1, 2, ... parts of the way, without the last `n - m` of them.
pub open spec fn between(p: PathPose, q: PathPose, n: int, m: int) -> Seq<PathPose>
    decreases m,
{
    if m <= 1 {
        Seq::empty()
    } else {
        between(p, q, n, m - 1).push(on_way(p, q, m - 1, n))
    }
}

/// The path up to, but without, pose number `k`.
pub open spec fn densified(poses: Seq<PathPose>, spacing: int, k: int) -> Seq<PathPose>
    decreases k,
{
    if k <= 0 {
        Seq::empty()
    } else {
        let (p, q) = (poses[k - 1], poses[k]);
        let n = parts(p, q, spacing);
        densified(poses, spacing, k - 1).push(p) + between(p, q, n, n)
    }
}

fn gap_root(p: PathPose, q: PathPose) -> (r: i64)
    requires
        p.wf(),
        q.wf(),
    ensures
        r == root_up(gap2(p, q)),
        0 <= r <= 0x400_0000_0000,
        r * r >= gap2(p, q),
{
    let dx: i128 = q.x as i128 - p.x as i128;
    let dy: i128 = q.y as i128 - p.y as i128;
    proof {
        lemma_square(dx as int);
        lemma_square(dy as int);
    }
    let v: u128 = (dx * dx + dy * dy) as u128;
    let s: u64 = root(v);
    proof {
        assert(s <= 0x3ff_ffff_ffff) by (nonlinear_arith)
            requires
                s * s <= v,
                v <= 0x8_0000_0000_0000_0000_0000,
                0 <= s,
        ;
        assert(0 <= s * s);
    }
    let exact: bool = s as u128 * s as u128 == v;
    let r: i64 = if exact {
        s as i64
    } else {
        s as i64 + 1
    };
    proof {
        if exact {
            if s > 0 {
                assert((s - 1) * (s - 1) < s * s) by (nonlinear_arith)
                    requires
                        s > 0,
                ;
            }
        } else {
            assert((r - 1) * (r - 1) == s * s);
            assert(r * r == (s + 1) * (s + 1));
        }
        lemma_root_up(v as int, r as int);
    }
    r
}

proof fn lemma_square(d: int)
    requires
        -0x1ff_ffff_ffff <= d <= 0x1ff_ffff_ffff,
    ensures
        0 <= d * d <= 0x4_0000_0000_0000_0000_0000,
{
    assert(0 <= d * d <= 0x4_0000_0000_0000_0000_0000) by (nonlinear_arith)
        requires
            -0x1ff_ffff_ffff <= d <= 0x1ff_ffff_ffff,
    ;
}

/// A part of a difference is no larger than the difference.
proof fn lemma_part(d: int, k: int, n: int)
    requires
        0 <= k <= n,
        0 < n,
    ensures
        d >= 0 ==> 0 <= (d * k) / n <= d,
        d <= 0 ==> d <= (d * k) / n <= 0,
{
    vstd::arithmetic::div_mod::lemma_fundamental_div_mod(d * k, n);
    vstd::arithmetic::div_mod::lemma_mod_bound(d * k, n);
    let (t, q) = (d * k, (d * k) / n);
    if d >= 0 {
        assert(0 <= t <= d * n) by (nonlinear_arith)
            requires
                t == d * k,
                0 <= k <= n,
                0 <= d,
        ;
        assert(0 <= q <= d) by (nonlinear_arith)
            requires
                t == n * q + t % n,
                0 <= t % n,
                t % n < n,
                0 <= t <= d * n,
                0 < n,
        ;
    }
    if d <= 0 {
        assert(d * n <= t <= 0) by (nonlinear_arith)
            requires
                t == d * k,
                0 <= k <= n,
                d <= 0,
        ;
        assert(d <= q <= 0) by (nonlinear_arith)
            requires
                t == n * q + t % n,
                0 <= t % n,
                t % n < n,
                d * n <= t <= 0,
                0 < n,
        ;
    }
}

fn way_point(p: PathPose, q: PathPose, k: i64, n: i64) -> (r: PathPose)
    requires
        p.wf(),
        q.wf(),
        0 <= k <= n,
        0 < n <= 0x400_0000_0000,
    ensures
        r == on_way(p, q, k as int, n as int),
        r.yaw == p.yaw,
        n * (r.x - p.x) <= k * (q.x - p.x) < n * (r.x - p.x) + n,
        n * (r.y - p.y) <= k * (q.y - p.y) < n * (r.y - p.y) + n,
{
    proof {
        law_way_point_lies_between(p, q, k as int, n as int);
    }
    let dx: i128 = q.x as i128 - p.x as i128;
    let dy: i128 = q.y as i128 - p.y as i128;
    proof {
        lemma_part(dx as int, k as int, n as int);
        lemma_part(dy as int, k as int, n as int);
        let (gx, gy, gk) = (dx as int, dy as int, k as int);
        assert(-0x1ff_ffff_ffff * 0x400_0000_0000 <= gx * gk <= 0x1ff_ffff_ffff * 0x400_0000_0000)
            by (nonlinear_arith)
            requires
                -0x1ff_ffff_ffff <= gx <= 0x1ff_ffff_ffff,
                0 <= gk <= 0x400_0000_0000,
        ;
        assert(-0x1ff_ffff_ffff * 0x400_0000_0000 <= gy * gk <= 0x1ff_ffff_ffff * 0x400_0000_0000)
            by (nonlinear_arith)
            requires
                -0x1ff_ffff_ffff <= gy <= 0x1ff_ffff_ffff,
                0 <= gk <= 0x400_0000_0000,
        ;
    }
    let x: i64 = p.x + floor_div(dx * k as i128, n as i128) as i64;
    let y: i64 = p.y + floor_div(dy * k as i128, n as i128) as i64;
    PathPose { x, y, yaw: p.yaw }
}

/// A path with more poses: between any two of them, as many at even distances as it takes
/// to keep them `max_spacing` apart at most. Every pose of the path stays.
pub fn densify(poses: &Vec<PathPose>, max_spacing: i64) -> (r: Vec<PathPose>)
    requires
        forall|i: int| 0 <= i < poses@.len() ==> (#[trigger] poses@[i]).wf(),
    ensures
        r@ == if poses@.len() < 2 || max_spacing <= 0 {
            poses@
        } else {
            densified(poses@, max_spacing as int, poses@.len() - 1).push(poses@.last())
        },
        poses@.len() >= 2 && max_spacing > 0 ==> forall|i: int|
            0 <= i < r@.len() - 1 ==> near(#[trigger] r@[i], r@[i + 1], max_spacing as int),
{
    let ghost ps = poses@;
    let mut out: Vec<PathPose> = Vec::new();
    if poses.len() < 2 || max_spacing <= 0 {
        let mut i: usize = 0;
        while i < poses.len()
            invariant
                i <= poses@.len(),
                out@ == poses@.take(i as int),
            decreases poses.len() - i,
        {
            out.push(poses[i]);
            assert(out@ =~= poses@.take(i + 1));
            i += 1;
        }
        assert(out@ =~= poses@);
        return out;
    }
    let last: usize = poses.len() - 1;
    let mut k: usize = 0;
    while k < last
        invariant
            ps == poses@,
            last == ps.len() - 1,
            0 < max_spacing,
            forall|i: int| 0 <= i < ps.len() ==> (#[trigger] ps[i]).wf(),
            k <= last,
            out@ == densified(ps, max_spacing as int, k as int),
        decreases last - k,
    {
        let (p, q) = (poses[k], poses[k + 1]);
        assert(ps[k as int].wf() && ps[k + 1].wf());
        let len: i64 = gap_root(p, q);
        let wide: i128 = len as i128 + (max_spacing as i128 - 1);
        let n: i64 = floor_div(wide, max_spacing as i128) as i64;
        proof {
            let (s, t) = (max_spacing as int, wide as int);
            vstd::arithmetic::div_mod::lemma_fundamental_div_mod(t, s);
            vstd::arithmetic::div_mod::lemma_mod_bound(t, s);
            let c = t / s;
            assert(0 <= c <= 0x400_0000_0000) by (nonlinear_arith)
                requires
                    t == s * c + t % s,
                    0 <= t % s,
                    t % s < s,
                    0 <= t <= 0x400_0000_0000 + s - 1,
                    0 < s,
            ;
        }
        let ghost base = out@;
        out.push(p);
        let ghost head = out@;
        let mut m: i64 = 1;
        assert(head + between(p, q, n as int, 1) =~= head);
        while m < n
            invariant
                p.wf(),
                q.wf(),
                1 <= m,
                m <= n || m == 1,
                n <= 0x400_0000_0000,
                out@ == head + between(p, q, n as int, m as int),
            decreases n - m,
        {
            out.push(way_point(p, q, m, n));
            assert(out@ =~= head + between(p, q, n as int, m + 1));
            m += 1;
        }
        proof {
            assert(between(p, q, n as int, n as int) == between(p, q, n as int, m as int));
            assert(out@ == densified(ps, max_spacing as int, k + 1));
        }
        k += 1;
    }
    out.push(poses[last]);
    proof {
        let s = max_spacing as int;
        assert(out@ == dense_to(ps, s, last as int));
        assert forall|i: int| 0 <= i < out@.len() - 1 implies near(
            #[trigger] out@[i],
            out@[i + 1],
            s,
        ) by {
            law_dense_path_has_no_gaps(ps, s, last as int, i);
        }
    }
    out
}

/// The parts of a way are no longer than the spacing, and along each axis two poses that
/// follow each other lie one part apart, to the nearest millionth.
pub proof fn law_parts_are_short(p: PathPose, q: PathPose, spacing: int, k: int)
    requires
        p.wf(),
        q.wf(),
        0 < spacing,
        0 <= k < parts(p, q, spacing),
    ensures
        ({
            let n = parts(p, q, spacing);
            &&& (n * spacing) * (n * spacing) >= gap2(p, q)
            &&& n * abs(on_way(p, q, k + 1, n).x - on_way(p, q, k, n).x) <= abs(q.x - p.x) + n
            &&& n * abs(on_way(p, q, k + 1, n).y - on_way(p, q, k, n).y) <= abs(q.y - p.y) + n
        }),
{
    let n = parts(p, q, spacing);
    let r = root_up(gap2(p, q));
    lemma_square((q.x - p.x) as int);
    lemma_square((q.y - p.y) as int);
    lemma_root_exists(gap2(p, q));
    vstd::arithmetic::div_mod::lemma_fundamental_div_mod(r + spacing - 1, spacing);
    vstd::arithmetic::div_mod::lemma_mod_bound(r + spacing - 1, spacing);
    assert(n * spacing >= r) by (nonlinear_arith)
        requires
            r + spacing - 1 == spacing * n + (r + spacing - 1) % spacing,
            (r + spacing - 1) % spacing < spacing,
    ;
    let t = n * spacing;
    assert(t * t >= r * r) by (nonlinear_arith)
        requires
            t >= r,
            r >= 0,
    ;
    lemma_part((q.x - p.x) as int, k, n);
    lemma_part((q.x - p.x) as int, k + 1, n);
    lemma_part((q.y - p.y) as int, k, n);
    lemma_part((q.y - p.y) as int, k + 1, n);
    lemma_step((q.x - p.x) as int, k, n);
    lemma_step((q.y - p.y) as int, k, n);
}

proof fn lemma_step(d: int, k: int, n: int)
    requires
        0 <= k < n,
    ensures
        n * abs((d * (k + 1)) / n - (d * k) / n) <= abs(d) + n,
{
    let (a, b) = (d * k, d * (k + 1));
    assert(b == a + d) by (nonlinear_arith)
        requires
            a == d * k,
            b == d * (k + 1),
    ;
    vstd::arithmetic::div_mod::lemma_fundamental_div_mod(a, n);
    vstd::arithmetic::div_mod::lemma_mod_bound(a, n);
    vstd::arithmetic::div_mod::lemma_fundamental_div_mod(b, n);
    vstd::arithmetic::div_mod::lemma_mod_bound(b, n);
    let (u, v) = (a / n, b / n);
    assert(n * v - n * u == n * (v - u)) by (nonlinear_arith);
    if v >= u {
        assert(abs(v - u) == v - u);
    } else {
        assert(n * (u - v) == -(n * (v - u))) by (nonlinear_arith);
        assert(abs(v - u) == u - v);
    }
}

/// A path keeps its first pose.
pub proof fn law_path_keeps_its_ends(poses: Seq<PathPose>, spacing: int, k: int)
    requires
        1 <= k < poses.len(),
    ensures
        densified(poses, spacing, k).len() > 0,
        densified(poses, spacing, k)[0] == poses[0],
        densified(poses, spacing, k).push(poses.last()).last() == poses.last(),
        forall|i: int| 0 <= i < k ==> densified(poses, spacing, k).contains(#[trigger] poses[i]),
    decreases k,
{
    let d = densified(poses, spacing, k);
    let b = densified(poses, spacing, k - 1);
    let n = parts(poses[k - 1], poses[k], spacing);
    if k > 1 {
        law_path_keeps_its_ends(poses, spacing, k - 1);
        assert(d[0] == b[0]);
    }
    assert forall|i: int| 0 <= i < k implies d.contains(#[trigger] poses[i]) by {
        if i < k - 1 {
            let j = choose|j: int| 0 <= j < b.len() && b[j] == poses[i];
            assert(d[j] == poses[i]);
        } else {
            assert(d[b.len() as int] == poses[i]);
        }
    }
}

/// The pose after `k` of `n` parts of a way lies between the ends of the way along both axes,
/// exactly `k` parts from the first end and `n - k` from the second, to less than a millionth.
pub proof fn law_way_point_lies_between(p: PathPose, q: PathPose, k: int, n: int)
    requires
        p.wf(),
        q.wf(),
        0 <= k <= n,
        0 < n,
    ensures
        ({
            let r = on_way(p, q, k, n);
            &&& r.yaw == p.yaw
            &&& p.x <= q.x ==> p.x <= r.x <= q.x
            &&& p.x >= q.x ==> p.x >= r.x >= q.x
            &&& p.y <= q.y ==> p.y <= r.y <= q.y
            &&& p.y >= q.y ==> p.y >= r.y >= q.y
            &&& n * (r.x - p.x) <= k * (q.x - p.x) < n * (r.x - p.x) + n
            &&& n * (r.y - p.y) <= k * (q.y - p.y) < n * (r.y - p.y) + n
            &&& n * (r.x - q.x) <= (n - k) * (p.x - q.x) < n * (r.x - q.x) + n
            &&& n * (r.y - q.y) <= (n - k) * (p.y - q.y) < n * (r.y - q.y) + n
            &&& k == 0 ==> r.x == p.x && r.y == p.y
            &&& k == n ==> r.x == q.x && r.y == q.y
        }),
{
    lemma_part((q.x - p.x) as int, k, n);
    lemma_part((q.y - p.y) as int, k, n);
    lemma_even(p.x as int, q.x as int, k, n);
    lemma_even(p.y as int, q.y as int, k, n);
}

proof fn lemma_even(p: int, q: int, k: int, n: int)
    requires
        0 <= k <= n,
        0 < n,
    ensures
        ({
            let r = p + ((q - p) * k) / n;
            &&& n * (r - p) <= k * (q - p) < n * (r - p) + n
            &&& n * (r - q) <= (n - k) * (p - q) < n * (r - q) + n
            &&& k == 0 ==> r == p
            &&& k == n ==> r == q
        }),
{
    let t = (q - p) * k;
    let r = p + t / n;
    vstd::arithmetic::div_mod::lemma_fundamental_div_mod(t, n);
    vstd::arithmetic::div_mod::lemma_mod_bound(t, n);
    assert(k * (q - p) == t && n * (r - p) == n * (t / n)) by (nonlinear_arith)
        requires
            t == (q - p) * k,
            r == p + t / n,
    ;
    assert(n * (r - q) == n * (r - p) - n * (q - p) && (n - k) * (p - q) == k * (q - p) - n * (q
        - p)) by (nonlinear_arith);
    if k == 0 {
        assert(t == 0);
        assert(r == p) by (nonlinear_arith)
            requires
                n * (r - p) <= 0 < n * (r - p) + n,
                0 < n,
        ;
    }
    if k == n {
        assert(r == q) by (nonlinear_arith)
            requires
                n * (r - q) <= 0 < n * (r - q) + n,
                0 < n,
        ;
    }
}

/// Two poses lie at most `spacing` apart, up to one millionth along each axis.
pub open spec fn near(a: PathPose, b: PathPose, spacing: int) -> bool {
    exists|dx: int, dy: int| #[trigger] is_near(a, b, spacing, dx, dy)
}

/// The differences `dx`, `dy` are those of the poses up to one millionth, and no longer than
/// `spacing` together.
pub open spec fn is_near(a: PathPose, b: PathPose, spacing: int, dx: int, dy: int) -> bool {
    &&& abs(b.x - a.x - dx) <= 1
    &&& abs(b.y - a.y - dy) <= 1
    &&& dx * dx + dy * dy <= spacing * spacing
}

/// One of `n` even steps of a whole number: `e` lies within one of `d / n` and is not longer.
proof fn lemma_one_part(d: int, k: int, n: int) -> (e: int)
    requires
        0 <= k < n,
    ensures
        abs((d * (k + 1)) / n - (d * k) / n - e) <= 1,
        abs(n * e) <= abs(d),
        (n * e) * (n * e) <= d * d,
{
    let (a, b) = (d * k, d * (k + 1));
    assert(b == a + d) by (nonlinear_arith)
        requires
            a == d * k,
            b == d * (k + 1),
    ;
    vstd::arithmetic::div_mod::lemma_fundamental_div_mod(a, n);
    vstd::arithmetic::div_mod::lemma_mod_bound(a, n);
    vstd::arithmetic::div_mod::lemma_fundamental_div_mod(b, n);
    vstd::arithmetic::div_mod::lemma_mod_bound(b, n);
    let w = b / n - a / n;
    assert(n * (b / n) - n * (a / n) == n * w) by (nonlinear_arith)
        requires
            w == b / n - a / n,
    ;
    assert(d - n < n * w < d + n);
    assert(n * (w - 1) == n * w - n && n * (w + 1) == n * w + n) by (nonlinear_arith);
    let e = if abs(n * w) <= abs(d) {
        w
    } else if d >= 0 {
        if w > 0 {
            w - 1
        } else {
            w + 1
        }
    } else {
        if w < 0 {
            w + 1
        } else {
            w - 1
        }
    };
    assert(w == 0 ==> n * w == 0) by (nonlinear_arith);
    assert(w > 0 ==> n * w > 0 && n * (w - 1) >= 0) by (nonlinear_arith)
        requires
            0 < n,
    ;
    assert(w < 0 ==> n * w < 0 && n * (w + 1) <= 0) by (nonlinear_arith)
        requires
            0 < n,
    ;
    let m = n * e;
    assert(abs(m) <= abs(d));
    assert(m * m <= d * d) by (nonlinear_arith)
        requires
            -d <= m <= d || d <= m <= -d,
    ;
    e
}

/// Two poses that follow each other on the way from `p` to `q`, the ends counted in, are at
/// most the spacing apart up to rounding.
pub proof fn law_parts_are_near(p: PathPose, q: PathPose, spacing: int, k: int)
    requires
        p.wf(),
        q.wf(),
        0 < spacing,
        0 <= k < parts(p, q, spacing),
    ensures
        near(
            on_way(p, q, k, parts(p, q, spacing)),
            on_way(p, q, k + 1, parts(p, q, spacing)),
            spacing,
        ),
{
    let n = parts(p, q, spacing);
    law_parts_are_short(p, q, spacing, k);
    law_way_point_lies_between(p, q, k, n);
    law_way_point_lies_between(p, q, k + 1, n);
    let dx = (q.x - p.x) as int;
    let dy = (q.y - p.y) as int;
    lemma_part(dx, k, n);
    lemma_part(dy, k, n);
    lemma_part(dx, k + 1, n);
    lemma_part(dy, k + 1, n);
    let ex = lemma_one_part(dx, k, n);
    let ey = lemma_one_part(dy, k, n);
    assert((n * ex) * (n * ex) == (n * n) * (ex * ex)) by (nonlinear_arith);
    assert((n * ey) * (n * ey) == (n * n) * (ey * ey)) by (nonlinear_arith);
    assert((n * spacing) * (n * spacing) == (n * n) * (spacing * spacing)) by (nonlinear_arith);
    assert(0 < n * n) by (nonlinear_arith)
        requires
            0 < n,
    ;
    let (u, v, w, c) = (ex * ex, ey * ey, spacing * spacing, n * n);
    assert(u + v <= w) by (nonlinear_arith)
        requires
            c * u + c * v <= c * w,
            0 < c,
    ;
    assert(is_near(on_way(p, q, k, n), on_way(p, q, k + 1, n), spacing, ex, ey));
}

proof fn lemma_between(p: PathPose, q: PathPose, n: int, m: int)
    ensures
        m >= 1 ==> between(p, q, n, m).len() == m - 1,
        m < 1 ==> between(p, q, n, m).len() == 0,
        forall|i: int| 0 <= i < between(p, q, n, m).len() ==> #[trigger] between(p, q, n, m)[i]
            == on_way(p, q, i + 1, n),
    decreases m,
{
    if m > 1 {
        lemma_between(p, q, n, m - 1);
    }
}

/// The poses put between two poses lie between them along both axes, with the heading of the
/// first; the first of them is one part from the first pose, the last one part from the
/// second, and there are as many as there are parts, less one.
pub proof fn law_inner_poses_lie_between(p: PathPose, q: PathPose, spacing: int, i: int)
    requires
        p.wf(),
        q.wf(),
        0 < spacing,
        0 <= i < between(p, q, parts(p, q, spacing), parts(p, q, spacing)).len(),
    ensures
        ({
            let n = parts(p, q, spacing);
            let inner = between(p, q, n, n);
            let r = inner[i];
            &&& inner.len() == n - 1
            &&& (n * spacing) * (n * spacing) >= gap2(p, q)
            &&& r.yaw == p.yaw
            &&& p.x <= r.x <= q.x || q.x <= r.x <= p.x
            &&& p.y <= r.y <= q.y || q.y <= r.y <= p.y
            &&& n * (r.x - p.x) <= (i + 1) * (q.x - p.x) < n * (r.x - p.x) + n
            &&& n * (r.y - p.y) <= (i + 1) * (q.y - p.y) < n * (r.y - p.y) + n
        }),
{
    let n = parts(p, q, spacing);
    lemma_between(p, q, n, n);
    law_parts_are_short(p, q, spacing, i);
    law_way_point_lies_between(p, q, i + 1, n);
}

/// Not more poses are put in than it takes: with one part less, a part would be longer than
/// the spacing.
pub proof fn law_no_pose_too_many(p: PathPose, q: PathPose, spacing: int)
    requires
        p.wf(),
        q.wf(),
        0 < spacing,
    ensures
        parts(p, q, spacing) >= 0,
        parts(p, q, spacing) == 0 <==> p.x == q.x && p.y == q.y,
        parts(p, q, spacing) >= 1 ==> ({
            let m = (parts(p, q, spacing) - 1) * spacing;
            m * m < gap2(p, q)
        }),
{
    let n = parts(p, q, spacing);
    let v = gap2(p, q);
    let r = root_up(v);
    lemma_square((q.x - p.x) as int);
    lemma_square((q.y - p.y) as int);
    lemma_root_exists(v);
    let t = r + spacing - 1;
    vstd::arithmetic::div_mod::lemma_fundamental_div_mod(t, spacing);
    vstd::arithmetic::div_mod::lemma_mod_bound(t, spacing);
    assert(n >= 0) by (nonlinear_arith)
        requires
            t == spacing * n + t % spacing,
            t % spacing < spacing,
            t >= 0,
            spacing > 0,
    ;
    let m = (n - 1) * spacing;
    assert(m == spacing * n - spacing) by (nonlinear_arith)
        requires
            m == (n - 1) * spacing,
    ;
    if n >= 1 {
        assert(m >= 0) by (nonlinear_arith)
            requires
                m == (n - 1) * spacing,
                n >= 1,
                spacing > 0,
        ;
        assert(m * m <= (r - 1) * (r - 1)) by (nonlinear_arith)
            requires
                0 <= m <= r - 1,
        ;
    }
    let (dx, dy) = ((q.x - p.x) as int, (q.y - p.y) as int);
    assert(dx != 0 ==> dx * dx > 0) by (nonlinear_arith);
    assert(dy != 0 ==> dy * dy > 0) by (nonlinear_arith);
    if v == 0 {
        assert(r == 0) by (nonlinear_arith)
            requires
                r == 0 || (r - 1) * (r - 1) < 0,
        ;
        assert(n < 1) by (nonlinear_arith)
            requires
                t == spacing * n + t % spacing,
                0 <= t % spacing,
                t == spacing - 1,
                spacing > 0,
        ;
    } else {
        assert(r > 0) by (nonlinear_arith)
            requires
                r * r >= v,
                v > 0,
                r >= 0,
        ;
        assert(n >= 1) by (nonlinear_arith)
            requires
                t == spacing * n + t % spacing,
                t % spacing < spacing,
                t >= spacing,
                spacing > 0,
        ;
    }
}

/// The poses of the dense path up to pose number `k`, with that pose.
pub open spec fn dense_to(poses: Seq<PathPose>, spacing: int, k: int) -> Seq<PathPose> {
    densified(poses, spacing, k).push(poses[k])
}

/// Any two poses of the dense path that follow each other, the given ones counted in, are at
/// most the spacing apart up to rounding.
pub proof fn law_dense_path_has_no_gaps(poses: Seq<PathPose>, spacing: int, k: int, i: int)
    requires
        forall|j: int| 0 <= j < poses.len() ==> (#[trigger] poses[j]).wf(),
        0 < spacing,
        0 <= k < poses.len(),
        0 <= i < dense_to(poses, spacing, k).len() - 1,
    ensures
        near(dense_to(poses, spacing, k)[i], dense_to(poses, spacing, k)[i + 1], spacing),
    decreases k,
{
    if k > 0 {
        let (p, q) = (poses[k - 1], poses[k]);
        let n = parts(p, q, spacing);
        let head = dense_to(poses, spacing, k - 1);
        let all = dense_to(poses, spacing, k);
        lemma_between(p, q, n, n);
        law_no_pose_too_many(p, q, spacing);
        let last = head.len() - 1;
        if i < last {
            law_dense_path_has_no_gaps(poses, spacing, k - 1, i);
            assert(all[i] == head[i] && all[i + 1] == head[i + 1]);
        } else if n == 0 {
            assert(is_near(all[i], all[i + 1], spacing, 0, 0)) by {
                assert(0 <= spacing * spacing) by (nonlinear_arith)
                    requires
                        0 < spacing,
                ;
            }
        } else {
            let j = i - last;
            law_parts_are_near(p, q, spacing, j);
            law_way_point_lies_between(p, q, 0, n);
            law_way_point_lies_between(p, q, n, n);
            let (a, b) = (on_way(p, q, j, n), on_way(p, q, j + 1, n));
            assert(all[i].x == a.x && all[i].y == a.y);
            assert(all[i + 1].x == b.x && all[i + 1].y == b.y);
            let (dx, dy) = choose|dx: int, dy: int| #[trigger] is_near(a, b, spacing, dx, dy);
            assert(is_near(all[i], all[i + 1], spacing, dx, dy));
        }
    }
}

} // verus!
