//! Uncertainty as a further coordinate of a state: it grows where the map says little and
//! shrinks where it says much.
use vstd::prelude::*;

use crate::chamfer::{abs, distances, is_distance, octile};
use crate::grid::{lemma_cell_bound, on_axis};

verus! {

/// How uncertainty develops.
pub struct BeliefModel {
    /// Levels of uncertainty. With one level there is nothing to develop.
    pub nb_levels: i32,
    /// The highest level at which a goal counts as reached.
    pub ib_goal: i32,
    /// By how much uncertainty grows in a step where the map says nothing.
    pub motion_gain: i32,
    /// What the map says in each cell: 0 nothing, 1 enough to keep the level, 2 more.
    pub info: Vec<u8>,
    /// Columns of the map.
    pub nx: i32,
}

impl Default for BeliefModel {
    fn default() -> (r: BeliefModel)
        ensures
            r.nb_levels == 1,
            r.ib_goal == 0,
            r.motion_gain == 1,
            r.info@.len() == 0,
            r.nx == 0,
    {
        BeliefModel { nb_levels: 1, ib_goal: 0, motion_gain: 1, info: Vec::new(), nx: 0 }
    }
}

/// `v`, cut off at `lo` and `hi`.
pub open spec fn clamped_to(v: int, lo: int, hi: int) -> int {
    if v < lo {
        lo
    } else if v > hi {
        hi
    } else {
        v
    }
}

/// City-block distance.
pub open spec fn city(dx: int, dy: int) -> int {
    abs(dx) + abs(dy)
}

/// A wall lies at most `reach` away from the cell `(x, y)`.
pub open spec fn wall_within(
    walls: Seq<bool>,
    nx: int,
    ny: int,
    x: int,
    y: int,
    reach: int,
) -> bool {
    exists|u: int, v: int|
        #![trigger walls[v * nx + u]]
        on_axis(u, nx) && on_axis(v, ny) && walls[v * nx + u] && city(x - u, y - v) <= reach
}

/// What the map says in the cell `(x, y)`: the nearer a wall, the more. The border of the
/// map is no wall.
pub open spec fn info_of(
    walls: Seq<bool>,
    nx: int,
    ny: int,
    x: int,
    y: int,
    near: int,
    far: int,
) -> u8 {
    if wall_within(walls, nx, ny, x, y, near) {
        2
    } else if wall_within(walls, nx, ny, x, y, far) {
        1
    } else {
        0
    }
}

impl BeliefModel {
    /// The level after a step into the cell `(ix, iy)`.
    pub open spec fn level_after(self, ib: int, ix: int, iy: int) -> int {
        let info = self.info@[iy * self.nx + ix];
        if self.nb_levels <= 1 {
            0
        } else if info == 0 {
            clamped_to(ib + self.motion_gain, 0, self.nb_levels - 1)
        } else if info == 1 {
            clamped_to(ib, 0, self.nb_levels - 1)
        } else {
            clamped_to(ib - 1, 0, self.nb_levels - 1)
        }
    }

    /// The level after a step into the cell `(ix, iy)`.
    pub fn next_ib(&self, ib: i32, ix: i32, iy: i32) -> (r: i32)
        requires
            self.nb_levels > 1 ==> {
                &&& on_axis(ix as int, self.nx as int)
                &&& 0 <= iy
                &&& iy * self.nx + ix < self.info@.len()
                &&& iy * self.nx + ix <= i32::MAX
            },
        ensures
            r == self.level_after(ib as int, ix as int, iy as int),
    {
        if self.nb_levels <= 1 {
            return 0;
        }
        assert(0 <= iy * self.nx) by (nonlinear_arith)
            requires
                0 <= iy,
                0 <= self.nx,
        ;
        let info: u8 = self.info[(iy * self.nx + ix) as usize];
        let step: i64 = if info == 0 {
            self.motion_gain as i64
        } else if info == 1 {
            0
        } else {
            -1
        };
        let top: i64 = self.nb_levels as i64 - 1;
        let v: i64 = ib as i64 + step;
        if v < 0 {
            0
        } else if v > top {
            top as i32
        } else {
            v as i32
        }
    }

    /// Finds what the map says in each cell: 2 up to `near` cells from a wall, 1 up to
    /// `far`, and 0 beyond.
    pub fn set_info(&mut self, walls: &Vec<bool>, nx: i32, ny: i32, near: u32, far: u32)
        requires
            0 <= nx,
            0 <= ny,
            nx * ny <= i32::MAX,
            walls@.len() == nx * ny,
            near < u32::MAX - 2,
            far < u32::MAX - 2,
        ensures
            final(self).nb_levels == old(self).nb_levels,
            final(self).ib_goal == old(self).ib_goal,
            final(self).motion_gain == old(self).motion_gain,
            final(self).nx == nx,
            final(self).info@.len() == nx * ny,
            forall|x: int, y: int|
                #![trigger final(self).info@[y * nx + x]]
                on_axis(x, nx as int) && on_axis(y, ny as int) ==> final(self).info@[y * nx + x]
                    == info_of(walls@, nx as int, ny as int, x, y, near as int, far as int),
    {
        let cap: u32 = u32::MAX - 2;
        let d: Vec<u32> = distances(walls, nx, ny, 1, 2, cap);
        let ghost all = d@;
        let mut info: Vec<u8> = Vec::new();
        let mut i: usize = 0;
        while i < d.len()
            invariant
                all == d@,
                i <= all.len(),
                info@.len() == i,
                forall|k: int|
                    0 <= k < i ==> #[trigger] info@[k] == if all[k] <= near {
                        2u8
                    } else if all[k] <= far {
                        1u8
                    } else {
                        0u8
                    },
            decreases d.len() - i,
        {
            let v: u32 = d[i];
            info.push(
                if v <= near {
                    2
                } else if v <= far {
                    1
                } else {
                    0
                },
            );
            i += 1;
        }
        proof {
            assert forall|x: int, y: int|
                #![trigger info@[y * nx + x]]
                on_axis(x, nx as int) && on_axis(y, ny as int) implies info@[y * nx + x]
                == info_of(walls@, nx as int, ny as int, x, y, near as int, far as int) by {
                lemma_cell_bound(x, y, nx as int, ny as int);
                let r = all[y * nx + x] as int;
                assert(is_distance(walls@, nx as int, ny as int, 1, 2, cap as int, x, y, r));
                lemma_within(walls@, nx as int, ny as int, cap as int, x, y, r, near as int);
                lemma_within(walls@, nx as int, ny as int, cap as int, x, y, r, far as int);
            }
        }
        self.nx = nx;
        self.info = info;
    }
}

proof fn lemma_within(
    walls: Seq<bool>,
    nx: int,
    ny: int,
    cap: int,
    x: int,
    y: int,
    r: int,
    reach: int,
)
    requires
        is_distance(walls, nx, ny, 1, 2, cap, x, y, r),
        0 <= reach < cap,
    ensures
        r <= reach <==> wall_within(walls, nx, ny, x, y, reach),
{
    if r <= reach {
        let (u, v) = choose|u: int, v: int|
            #![trigger walls[v * nx + u]]
            on_axis(u, nx) && on_axis(v, ny) && walls[v * nx + u] && r == octile(
                x - u,
                y - v,
                1,
                2,
            );
        assert(walls[v * nx + u]);
        assert(octile(x - u, y - v, 1, 2) == city(x - u, y - v));
    }
    if wall_within(walls, nx, ny, x, y, reach) {
        let (u, v) = choose|u: int, v: int|
            #![trigger walls[v * nx + u]]
            on_axis(u, nx) && on_axis(v, ny) && walls[v * nx + u] && city(x - u, y - v) <= reach;
        assert(walls[v * nx + u]);
        assert(octile(x - u, y - v, 1, 2) == city(x - u, y - v));
    }
}

/// The level never leaves its range, whatever the cell says.
pub proof fn law_level_stays_in_range(m: BeliefModel, ib: int, ix: int, iy: int)
    requires
        1 <= m.nb_levels,
    ensures
        0 <= m.level_after(ib, ix, iy) < m.nb_levels,
{
}

/// Where the map says nothing uncertainty grows by the gain, where it says enough it stays,
/// and where it says more it falls by one level, as far as there are levels.
pub proof fn law_level_follows_the_map(m: BeliefModel, ib: int, ix: int, iy: int)
    requires
        1 < m.nb_levels,
        0 <= ib < m.nb_levels,
    ensures
        ({
            let info = m.info@[iy * m.nx + ix];
            let next = m.level_after(ib, ix, iy);
            let top = m.nb_levels - 1;
            &&& info == 0 && 0 <= ib + m.motion_gain <= top ==> next - ib == m.motion_gain
            &&& info == 0 && ib + m.motion_gain > top ==> next == top
            &&& info == 0 && ib + m.motion_gain < 0 ==> next == 0
            &&& info == 1 ==> next == ib
            &&& info >= 2 && ib > 0 ==> next + 1 == ib
            &&& info >= 2 && ib == 0 ==> next == 0
        }),
{
}

/// A cell has the most information exactly where a wall is near, counted along the axes, some
/// where one is in reach, and none otherwise.
pub proof fn law_info_tells_walls(
    walls: Seq<bool>,
    nx: int,
    ny: int,
    x: int,
    y: int,
    near: int,
    far: int,
    u: int,
    v: int,
)
    requires
        near <= far,
        on_axis(u, nx),
        on_axis(v, ny),
        walls[v * nx + u],
    ensures
        abs(x - u) + abs(y - v) <= near ==> info_of(walls, nx, ny, x, y, near, far) == 2,
        abs(x - u) + abs(y - v) <= far ==> info_of(walls, nx, ny, x, y, near, far) >= 1,
{
}

/// Where no wall is in reach, the map says nothing.
pub proof fn law_no_walls_no_info(
    walls: Seq<bool>,
    nx: int,
    ny: int,
    x: int,
    y: int,
    near: int,
    far: int,
)
    requires
        near <= far,
        forall|u: int, v: int|
            #![trigger walls[v * nx + u]]
            on_axis(u, nx) && on_axis(v, ny) && walls[v * nx + u] ==> abs(x - u) + abs(y - v) > far,
    ensures
        info_of(walls, nx, ny, x, y, near, far) == 0,
{
}

} // verus!
