//! What a map says of single points: how far the nearest obstacle is, and whether the
//! point is free, occupied or unknown.
use vstd::prelude::*;

use crate::belief::evidence::free_count;
use crate::chamfer::{distances, is_distance};
use crate::grid::{lemma_cell_bound, on_axis};

verus! {

/// One cell in the distances of a field.
pub const CELL: u32 = 0x1_0000;

/// One step over a corner: the square root of two, in the same format.
pub const CORNER: u32 = 92_682;

/// Distances are not told apart beyond this.
pub const FARTHEST: u32 = 0xfffe_0000;

/// A map of points.
pub struct LikelihoodField {
    pub w: i32,
    pub h: i32,
    /// How far each point is from the nearest obstacle.
    pub far: Vec<u32>,
    /// How well a beam that ends at the point is explained, from 0 to 255.
    pub lf: Vec<u8>,
    pub free: Vec<bool>,
    pub unknown: Vec<bool>,
}

impl LikelihoodField {
    /// All lists cover the map.
    pub open spec fn wf(self) -> bool {
        &&& 0 <= self.w
        &&& 0 <= self.h
        &&& self.w * self.h <= i32::MAX
        &&& self.far@.len() == self.w * self.h
        &&& self.lf@.len() == self.w * self.h
        &&& self.free@.len() == self.w * self.h
        &&& self.unknown@.len() == self.w * self.h
    }

    /// `(x, y)` is on the map.
    pub open spec fn has(self, x: int, y: int) -> bool {
        on_axis(x, self.w as int) && on_axis(y, self.h as int)
    }

    /// Position of `(x, y)` in the lists.
    pub open spec fn at(self, x: int, y: int) -> int {
        y * self.w + x
    }

    fn find(&self, x: i32, y: i32) -> (r: Option<usize>)
        requires
            self.wf(),
        ensures
            match r {
                Some(i) => self.has(x as int, y as int) && i == self.at(x as int, y as int) && i
                    < self.w * self.h,
                None => !self.has(x as int, y as int),
            },
    {
        if x < 0 || y < 0 || x >= self.w || y >= self.h {
            return None;
        }
        proof {
            lemma_cell_bound(x as int, y as int, self.w as int, self.h as int);
            assert(0 <= y * self.w) by (nonlinear_arith)
                requires
                    0 <= y,
                    0 <= self.w,
            ;
        }
        Some((y * self.w + x) as usize)
    }

    /// The field of a map whose cells are occupied (above 0), free (0) or unknown (below
    /// 0). Unknown cells are neither obstacles nor free. How well beams are explained is
    /// still to be set.
    pub fn from_grid(data: &Vec<i8>, w: i32, h: i32) -> (r: LikelihoodField)
        requires
            0 <= w,
            0 <= h,
            w * h <= i32::MAX,
            data@.len() == w * h,
        ensures
            r.wf(),
            r.w == w,
            r.h == h,
            r.free@ == data@.map_values(|d: i8| d == 0),
            r.unknown@ == data@.map_values(|d: i8| d < 0),
            r.lf@ == data@.map_values(|d: i8| 0u8),
            forall|x: int, y: int|
                #![trigger r.far@[y * w + x]]
                on_axis(x, w as int) && on_axis(y, h as int) ==> is_distance(
                    data@.map_values(|d: i8| d > 0),
                    w as int,
                    h as int,
                    CELL as int,
                    CORNER as int,
                    FARTHEST as int,
                    x,
                    y,
                    r.far@[y * w + x] as int,
                ),
    {
        let n: usize = data.len();
        let mut free: Vec<bool> = Vec::new();
        let mut unknown: Vec<bool> = Vec::new();
        let mut walls: Vec<bool> = Vec::new();
        let mut lf: Vec<u8> = Vec::new();
        let mut i: usize = 0;
        while i < n
            invariant
                n == data@.len(),
                i <= n,
                free@.len() == i,
                unknown@.len() == i,
                walls@.len() == i,
                lf@.len() == i,
                forall|k: int| 0 <= k < i ==> #[trigger] free@[k] == (data@[k] == 0),
                forall|k: int| 0 <= k < i ==> #[trigger] unknown@[k] == (data@[k] < 0),
                forall|k: int| 0 <= k < i ==> #[trigger] walls@[k] == (data@[k] > 0),
                forall|k: int| 0 <= k < i ==> #[trigger] lf@[k] == 0,
            decreases n - i,
        {
            let d: i8 = data[i];
            free.push(d == 0);
            unknown.push(d < 0);
            walls.push(d > 0);
            lf.push(0);
            i += 1;
        }
        assert(free@ =~= data@.map_values(|d: i8| d == 0));
        assert(unknown@ =~= data@.map_values(|d: i8| d < 0));
        assert(walls@ =~= data@.map_values(|d: i8| d > 0));
        assert(lf@ =~= data@.map_values(|d: i8| 0u8));
        let far: Vec<u32> = distances(&walls, w, h, CELL, CORNER, FARTHEST);
        LikelihoodField { w, h, far, lf, free, unknown }
    }

    /// Sets how well beams that end at the points are explained.
    pub fn explain(&mut self, lf: Vec<u8>)
        requires
            old(self).wf(),
            lf@.len() == old(self).w * old(self).h,
        ensures
            final(self).wf(),
            *final(self) == (LikelihoodField { lf, ..*old(self) }),
    {
        self.lf = lf;
    }

    /// Whether the point `(x, y)` is unknown. Off the map nothing is.
    pub fn unk_at(&self, x: i32, y: i32) -> (r: bool)
        requires
            self.wf(),
        ensures
            r == (self.has(x as int, y as int) && self.unknown@[self.at(x as int, y as int)]),
    {
        match self.find(x, y) {
            Some(i) => self.unknown[i],
            None => false,
        }
    }

    /// How many cells the point `(x, y)` is away from the nearest obstacle, 255 at most.
    /// Nothing is known of it where the map ends or does not say.
    pub fn known_dist(&self, x: i32, y: i32) -> (r: Option<usize>)
        requires
            self.wf(),
        ensures
            r == if !self.has(x as int, y as int) || self.unknown@[self.at(x as int, y as int)] {
                None
            } else {
                let c = self.far@[self.at(x as int, y as int)] as int / (CELL as int);
                Some(
                    if c < 255 {
                        c as usize
                    } else {
                        255
                    },
                )
            },
            r matches Some(c) ==> c <= 255 && c * CELL <= self.far@[self.at(x as int, y as int)]
                && (c < 255 ==> self.far@[self.at(x as int, y as int)] < (c + 1) * CELL),
    {
        match self.find(x, y) {
            None => None,
            Some(i) => {
                if self.unknown[i] {
                    return None;
                }
                let c: u32 = self.far[i] / CELL;
                Some(
                    if c < 255 {
                        c as usize
                    } else {
                        255
                    },
                )
            },
        }
    }

    /// Whether the point `(x, y)` is free. Off the map nothing is.
    pub fn free_cell(&self, x: i32, y: i32) -> (r: bool)
        requires
            self.wf(),
        ensures
            r == (self.has(x as int, y as int) && self.free@[self.at(x as int, y as int)]),
    {
        match self.find(x, y) {
            Some(i) => self.free[i],
            None => false,
        }
    }

    /// How well a beam that ends at `(x, y)` is explained. Off the map it is not.
    pub fn level(&self, x: i32, y: i32) -> (r: u8)
        requires
            self.wf(),
        ensures
            r == if self.has(x as int, y as int) {
                self.lf@[self.at(x as int, y as int)]
            } else {
                0
            },
    {
        match self.find(x, y) {
            Some(i) => self.lf[i],
            None => 0,
        }
    }

    /// A beam passed through `(x, y)`: hypotheses may stand there. How well beams are
    /// explained does not change.
    pub fn mark_free(&mut self, x: i32, y: i32)
        requires
            old(self).wf(),
        ensures
            final(self).wf(),
            final(self).w == old(self).w,
            final(self).h == old(self).h,
            final(self).far == old(self).far,
            final(self).lf == old(self).lf,
            final(self).unknown == old(self).unknown,
            final(self).free@ == if old(self).has(x as int, y as int) {
                old(self).free@.update(old(self).at(x as int, y as int), true)
            } else {
                old(self).free@
            },
    {
        match self.find(x, y) {
            Some(i) => {
                self.free.set(i, true);
            },
            None => {},
        }
    }
}

/// The cells of a belief that hypotheses may stand in, and how many there are.
pub struct FreeMap {
    pub nx: i32,
    pub ny: i32,
    pub free: Vec<bool>,
    pub n_free: usize,
}

impl FreeMap {
    /// The list covers the map, and the count is right.
    pub open spec fn wf(self) -> bool {
        &&& 0 <= self.nx
        &&& 0 <= self.ny
        &&& self.nx * self.ny <= i32::MAX
        &&& self.free@.len() == self.nx * self.ny
        &&& self.n_free == free_count(self.free@, self.free@.len() as int)
    }

    /// The map whose cells are free where `data` is 0.
    pub fn new(data: &Vec<i8>, nx: i32, ny: i32) -> (r: FreeMap)
        requires
            0 <= nx,
            0 <= ny,
            nx * ny <= i32::MAX,
            data@.len() == nx * ny,
        ensures
            r.wf(),
            r.nx == nx,
            r.ny == ny,
            r.free@ == data@.map_values(|d: i8| d == 0),
    {
        let mut free: Vec<bool> = Vec::new();
        let mut i: usize = 0;
        while i < data.len()
            invariant
                i <= data@.len(),
                free@.len() == i,
                forall|k: int| 0 <= k < i ==> #[trigger] free@[k] == (data@[k] == 0),
            decreases data.len() - i,
        {
            free.push(data[i] == 0);
            i += 1;
        }
        assert(free@ =~= data@.map_values(|d: i8| d == 0));
        let n_free: usize = crate::belief::evidence::count_free(&free);
        FreeMap { nx, ny, free, n_free }
    }

    /// A beam passed through the cell `(ix, iy)`: it is free. Says whether the beam is
    /// still on the map.
    pub fn open_cell(&mut self, ix: i32, iy: i32) -> (r: bool)
        requires
            old(self).wf(),
        ensures
            final(self).wf(),
            final(self).nx == old(self).nx,
            final(self).ny == old(self).ny,
            r == (on_axis(ix as int, old(self).nx as int) && on_axis(
                iy as int,
                old(self).ny as int,
            )),
            final(self).free@ == if r {
                old(self).free@.update(iy * old(self).nx + ix, true)
            } else {
                old(self).free@
            },
    {
        if ix < 0 || iy < 0 || ix >= self.nx || iy >= self.ny {
            return false;
        }
        proof {
            lemma_cell_bound(ix as int, iy as int, self.nx as int, self.ny as int);
            assert(0 <= iy * self.nx) by (nonlinear_arith)
                requires
                    0 <= iy,
                    0 <= self.nx,
            ;
        }
        let i: usize = (iy * self.nx + ix) as usize;
        let ghost f0 = self.free@;
        proof {
            lemma_count_update(f0, i as int, f0.len() as int);
            lemma_count_bound(f0.update(i as int, true), f0.len() as int);
        }
        if !self.free[i] {
            self.free.set(i, true);
            self.n_free = self.n_free + 1;
        } else {
            assert(f0.update(i as int, true) =~= f0);
        }
        true
    }
}

proof fn lemma_count_update(f: Seq<bool>, i: int, n: int)
    requires
        0 <= i < f.len(),
        0 <= n <= f.len(),
    ensures
        free_count(f.update(i, true), n) == free_count(f, n) + if i < n && !f[i] {
            1int
        } else {
            0int
        },
    decreases n,
{
    if n > 0 {
        lemma_count_update(f, i, n - 1);
    }
}

proof fn lemma_count_bound(f: Seq<bool>, n: int)
    requires
        0 <= n <= f.len(),
    ensures
        0 <= free_count(f, n) <= n,
    decreases n,
{
    if n > 0 {
        lemma_count_bound(f, n - 1);
    }
}

} // verus!
