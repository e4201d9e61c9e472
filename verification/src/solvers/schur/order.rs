//! The order in which portals are numbered: vertical lines first, line by line, tile by tile
//! along the line, free stretch by free stretch, position by position, heading by heading.
//! A portal gets its number when it is first met, and a tile lists it when it first meets it.
use vstd::prelude::*;

use crate::model::Grid;
use crate::solvers::schur::artifact::Portal;
use crate::solvers::schur::place::{
    free_on, has_segment, line_cell, nth_heading, run_count, run_position, segment, Segment, Tiling,
};
use crate::state::State;

verus! {

/// A portal state is met, between two tiles.
pub struct Stop {
    pub t1: int,
    pub t2: int,
    pub x: int,
    pub y: int,
    pub t: int,
}

/// The portal that is met.
pub open spec fn portal_of(p: Stop) -> Portal {
    Portal { ix: p.x as i32, iy: p.y as i32, it: p.t as i32 }
}

/// The first `h` headings of a portal position.
pub open spec fn heading_stops(
    c: (int, int),
    nt: int,
    headings: int,
    t1: int,
    t2: int,
    h: int,
) -> Seq<Stop> {
    Seq::new(
        h as nat,
        |i: int| Stop { t1, t2, x: c.0, y: c.1, t: nth_heading(nt, headings, i) },
    )
}

/// The first `n` positions of the free stretch `a..=b` of a segment.
pub open spec fn run_stops(
    g: Grid,
    l: Tiling,
    e: Segment,
    a: int,
    b: int,
    t1: int,
    t2: int,
    n: int,
) -> Seq<Stop>
    decreases n,
{
    if n <= 0 {
        Seq::empty()
    } else {
        run_stops(g, l, e, a, b, t1, t2, n - 1) + heading_stops(
            line_cell(e.vertical, e.line, run_position(a, b, l.spacing, n - 1)),
            g.nt,
            l.headings,
            t1,
            t2,
            l.headings,
        )
    }
}

/// Where the free stretch that reaches up to position `b` begins.
pub open spec fn run_start(g: Grid, s: Seq<State>, e: Segment, b: int) -> int
    decreases b - e.lo,
{
    if b <= e.lo || !free_on(g, s, e, b - 1) {
        b
    } else {
        run_start(g, s, e, b - 1)
    }
}

/// The free stretches of a segment that end before position `p`.
pub open spec fn segment_stops(
    g: Grid,
    s: Seq<State>,
    l: Tiling,
    e: Segment,
    t1: int,
    t2: int,
    p: int,
) -> Seq<Stop>
    decreases p - e.lo,
{
    if p <= e.lo {
        Seq::empty()
    } else {
        let before = segment_stops(g, s, l, e, t1, t2, p - 1);
        if free_on(g, s, e, p - 1) && (p - 1 == e.hi || !free_on(g, s, e, p)) {
            let a = run_start(g, s, e, p - 1);
            before + run_stops(g, l, e, a, p - 1, t1, t2, run_count(p - a, l.spacing))
        } else {
            before
        }
    }
}

/// The segment number `j` of line `k`.
pub open spec fn line_stops(
    g: Grid,
    s: Seq<State>,
    l: Tiling,
    vertical: bool,
    k: int,
    j: int,
) -> Seq<Stop> {
    let e = segment(g, l, vertical, k, j);
    if vertical {
        segment_stops(g, s, l, e, j * l.tnx + k - 1, j * l.tnx + k, e.hi + 1)
    } else {
        segment_stops(g, s, l, e, (k - 1) * l.tnx + j, k * l.tnx + j, e.hi + 1)
    }
}

/// The first `n` segments of line `k`.
pub open spec fn segments_stops(
    g: Grid,
    s: Seq<State>,
    l: Tiling,
    vertical: bool,
    k: int,
    n: int,
) -> Seq<Stop>
    decreases n,
{
    if n <= 0 {
        Seq::empty()
    } else {
        segments_stops(g, s, l, vertical, k, n - 1) + line_stops(g, s, l, vertical, k, n - 1)
    }
}

/// The lines of one direction up to number `n`, counted from one.
pub open spec fn lines_stops(
    g: Grid,
    s: Seq<State>,
    l: Tiling,
    vertical: bool,
    n: int,
) -> Seq<Stop>
    decreases n,
{
    if n <= 1 {
        Seq::empty()
    } else {
        lines_stops(g, s, l, vertical, n - 1) + segments_stops(
            g,
            s,
            l,
            vertical,
            n - 1,
            if vertical {
                l.tny
            } else {
                l.tnx
            },
        )
    }
}

/// All portal states in the order in which they are met.
pub open spec fn all_stops(g: Grid, s: Seq<State>, l: Tiling) -> Seq<Stop> {
    lines_stops(g, s, l, true, l.tnx) + lines_stops(g, s, l, false, l.tny)
}

/// Numbered portals, and each tile's list of numbers.
#[verifier::ext_equal]
pub struct Laid {
    pub portals: Seq<Portal>,
    pub lists: Seq<Seq<u32>>,
}

/// The number of `p` among `portals`: the next one if it is new.
pub open spec fn number_of(portals: Seq<Portal>, p: Portal) -> int {
    if portals.contains(p) {
        portals.index_of(p)
    } else {
        portals.len() as int
    }
}

/// The lists after tile `t` has met portal `k`.
pub open spec fn with_number(lists: Seq<Seq<u32>>, t: int, k: int) -> Seq<Seq<u32>> {
    if lists[t].contains(k as u32) {
        lists
    } else {
        lists.update(t, lists[t].push(k as u32))
    }
}

/// What has been numbered and listed once a further portal state has been met.
pub open spec fn laid_next(b: Laid, st: Stop) -> Laid {
    let p = portal_of(st);
    let k = number_of(b.portals, p);
    Laid {
        portals: if b.portals.contains(p) {
            b.portals
        } else {
            b.portals.push(p)
        },
        lists: with_number(with_number(b.lists, st.t1, k), st.t2, k),
    }
}

/// What has been numbered and listed after the first `n` stops, with `tiles` tiles.
pub open spec fn laid(stops: Seq<Stop>, n: int, tiles: int) -> Laid
    decreases n,
{
    if n <= 0 {
        Laid { portals: Seq::empty(), lists: Seq::new(tiles as nat, |t: int| Seq::empty()) }
    } else {
        laid_next(laid(stops, n - 1, tiles), stops[n - 1])
    }
}

/// `portals` and the tiles' lists are in the order of the tiling.
pub open spec fn in_order(
    g: Grid,
    s: Seq<State>,
    l: Tiling,
    portals: Seq<Portal>,
    lists: Seq<Seq<u32>>,
) -> bool {
    let stops = all_stops(g, s, l);
    laid(stops, stops.len() as int, lists.len() as int) == (Laid { portals, lists })
}

/// Later stops do not matter for earlier ones.
pub proof fn lemma_laid_prefix(a: Seq<Stop>, b: Seq<Stop>, n: int, tiles: int)
    requires
        n <= a.len(),
    ensures
        laid(a + b, n, tiles) == laid(a, n, tiles),
    decreases n,
{
    if n > 0 {
        lemma_laid_prefix(a, b, n - 1, tiles);
        assert((a + b)[n - 1] == a[n - 1]);
    }
}

/// Where a stretch that is free from `a` to `b`, and not before, begins.
pub proof fn lemma_run_start(g: Grid, s: Seq<State>, e: Segment, a: int, b: int)
    requires
        e.lo <= a <= b,
        forall|j: int| a <= j <= b ==> #[trigger] free_on(g, s, e, j),
        a == e.lo || !free_on(g, s, e, a - 1),
    ensures
        run_start(g, s, e, b) == a,
    decreases b - a,
{
    if a < b {
        assert(free_on(g, s, e, b - 1));
        lemma_run_start(g, s, e, a, b - 1);
    }
}

/// Within a free stretch no stretch ends.
pub proof fn lemma_segment_stops_within(
    g: Grid,
    s: Seq<State>,
    l: Tiling,
    e: Segment,
    t1: int,
    t2: int,
    a: int,
    p: int,
)
    requires
        e.lo <= a <= p <= e.hi,
        forall|j: int| a <= j <= p ==> #[trigger] free_on(g, s, e, j),
    ensures
        segment_stops(g, s, l, e, t1, t2, p) == segment_stops(g, s, l, e, t1, t2, a),
    decreases p - a,
{
    if a < p {
        assert(free_on(g, s, e, p));
        lemma_segment_stops_within(g, s, l, e, t1, t2, a, p - 1);
    }
}

/// The stops go by what is free.
proof fn lemma_same_segment_stops(
    g: Grid,
    s: Seq<State>,
    t: Seq<State>,
    l: Tiling,
    e: Segment,
    t1: int,
    t2: int,
    p: int,
)
    requires
        p <= e.hi + 1,
        forall|j: int| e.lo <= j <= e.hi ==> #[trigger] free_on(g, s, e, j) == free_on(g, t, e, j),
    ensures
        segment_stops(g, s, l, e, t1, t2, p) == segment_stops(g, t, l, e, t1, t2, p),
    decreases p - e.lo,
{
    if p > e.lo {
        lemma_same_segment_stops(g, s, t, l, e, t1, t2, p - 1);
        assert(free_on(g, s, e, p - 1) == free_on(g, t, e, p - 1));
        if p <= e.hi {
            assert(free_on(g, s, e, p) == free_on(g, t, e, p));
        }
        lemma_same_run_start(g, s, t, e, p - 1);
    }
}

proof fn lemma_same_run_start(g: Grid, s: Seq<State>, t: Seq<State>, e: Segment, b: int)
    requires
        b <= e.hi,
        forall|j: int| e.lo <= j <= e.hi ==> #[trigger] free_on(g, s, e, j) == free_on(g, t, e, j),
    ensures
        run_start(g, s, e, b) == run_start(g, t, e, b),
    decreases b - e.lo,
{
    if b > e.lo {
        assert(free_on(g, s, e, b - 1) == free_on(g, t, e, b - 1));
        lemma_same_run_start(g, s, t, e, b - 1);
    }
}

/// On every segment of the tiling the same positions are free.
pub open spec fn same_lines(g: Grid, s: Seq<State>, t: Seq<State>, l: Tiling) -> bool {
    forall|vertical: bool, k: int, j: int, p: int|
        #![trigger free_on(g, s, segment(g, l, vertical, k, j), p)]
        has_segment(l, vertical, k, j) && segment(
            g,
            l,
            vertical,
            k,
            j,
        ).lo <= p <= segment(g, l, vertical, k, j).hi ==> free_on(
            g,
            s,
            segment(g, l, vertical, k, j),
            p,
        ) == free_on(g, t, segment(g, l, vertical, k, j), p)
}

proof fn lemma_same_segments(
    g: Grid,
    s: Seq<State>,
    t: Seq<State>,
    l: Tiling,
    vertical: bool,
    k: int,
    n: int,
)
    requires
        same_lines(g, s, t, l),
        1 <= k < (if vertical {
            l.tnx
        } else {
            l.tny
        }),
        n <= (if vertical {
            l.tny
        } else {
            l.tnx
        }),
    ensures
        segments_stops(g, s, l, vertical, k, n) == segments_stops(g, t, l, vertical, k, n),
    decreases n,
{
    if n > 0 {
        lemma_same_segments(g, s, t, l, vertical, k, n - 1);
        let e = segment(g, l, vertical, k, n - 1);
        assert(has_segment(l, vertical, k, n - 1));
        assert forall|j: int| e.lo <= j <= e.hi implies #[trigger] free_on(g, s, e, j) == free_on(
            g,
            t,
            e,
            j,
        ) by {}
        let (t1, t2) = if vertical {
            ((n - 1) * l.tnx + k - 1, (n - 1) * l.tnx + k)
        } else {
            ((k - 1) * l.tnx + (n - 1), k * l.tnx + (n - 1))
        };
        lemma_same_segment_stops(g, s, t, l, e, t1, t2, e.hi + 1);
    }
}

proof fn lemma_same_lines(
    g: Grid,
    s: Seq<State>,
    t: Seq<State>,
    l: Tiling,
    vertical: bool,
    n: int,
)
    requires
        same_lines(g, s, t, l),
        n <= (if vertical {
            l.tnx
        } else {
            l.tny
        }),
    ensures
        lines_stops(g, s, l, vertical, n) == lines_stops(g, t, l, vertical, n),
    decreases n,
{
    if n > 1 {
        lemma_same_lines(g, s, t, l, vertical, n - 1);
        lemma_same_segments(
            g,
            s,
            t,
            l,
            vertical,
            n - 1,
            if vertical {
                l.tny
            } else {
                l.tnx
            },
        );
    }
}

/// Portals are numbered by what is free on the lines alone.
pub proof fn lemma_same_stops(g: Grid, s: Seq<State>, t: Seq<State>, l: Tiling)
    requires
        same_lines(g, s, t, l),
    ensures
        all_stops(g, s, l) == all_stops(g, t, l),
{
    lemma_same_lines(g, s, t, l, true, l.tnx);
    lemma_same_lines(g, s, t, l, false, l.tny);
}

} // verus!
