//! The goal-independent part of the tiled solver: where the portals are, and what
//! it costs to cross each tile from portal to portal.
use vstd::prelude::*;

use crate::params::{MAX_COST, REACH_THRESH};

verus! {

/// How many cells a portal's patch extends from its centre.
pub const PATCH_R: i32 = 1;

/// How many headings a portal's patch extends from its centre.
pub const PATCH_T: i32 = 1;

/// Settings of the tiling.
#[derive(Clone, Copy, Debug, PartialEq, Eq, Structural)]
pub struct SchurConfig {
    /// Side of a tile, in cells.
    pub tile: i32,
    /// Headings per portal position.
    pub portal_thetas: i32,
    /// Distance between portals on a free stretch of a line between tiles, in cells.
    pub spacing: i32,
}

impl Default for SchurConfig {
    fn default() -> (r: SchurConfig)
        ensures
            r == (SchurConfig { tile: 32, portal_thetas: 8, spacing: 16 }),
    {
        SchurConfig { tile: 32, portal_thetas: 8, spacing: 16 }
    }
}

/// The centre of a portal's patch.
#[derive(Clone, Copy, Debug, PartialEq, Eq, Structural)]
pub struct Portal {
    pub ix: i32,
    pub iy: i32,
    pub it: i32,
}

/// Crossing costs of one tile: `w[i * portals.len() + j]` from portal `i` to portal
/// `j` of the tile, `MAX_COST` where there is no way.
#[derive(Clone, Debug, PartialEq)]
pub struct TileEdges {
    /// Positions in [`SchurArtifact::portals`].
    pub portals: Vec<u32>,
    pub w: Vec<u64>,
}

/// The portals of a map and the crossing costs of its tiles.
#[derive(Clone, Debug, PartialEq)]
pub struct SchurArtifact {
    pub tile: i32,
    pub halo: i32,
    pub nx: i32,
    pub ny: i32,
    pub nt: i32,
    pub tnx: i32,
    pub tny: i32,
    pub portals: Vec<Portal>,
    /// Tile `(tx, ty)` is at `ty * tnx + tx`.
    pub tiles: Vec<TileEdges>,
}

/// What a [`TileEdges`] holds.
#[verifier::ext_equal]
pub struct EdgesView {
    pub portals: Seq<u32>,
    pub w: Seq<u64>,
}

/// What a [`SchurArtifact`] holds.
#[verifier::ext_equal]
pub struct ArtifactView {
    pub tile: i32,
    pub halo: i32,
    pub nx: i32,
    pub ny: i32,
    pub nt: i32,
    pub tnx: i32,
    pub tny: i32,
    pub portals: Seq<Portal>,
    pub tiles: Seq<EdgesView>,
}

impl View for TileEdges {
    type V = EdgesView;

    open spec fn view(&self) -> EdgesView {
        EdgesView { portals: self.portals@, w: self.w@ }
    }
}

impl View for SchurArtifact {
    type V = ArtifactView;

    open spec fn view(&self) -> ArtifactView {
        ArtifactView {
            tile: self.tile,
            halo: self.halo,
            nx: self.nx,
            ny: self.ny,
            nt: self.nt,
            tnx: self.tnx,
            tny: self.tny,
            portals: self.portals@,
            tiles: self.tiles@.map_values(|e: TileEdges| e@),
        }
    }
}

/// Costs too large to be real count as "no way".
pub open spec fn clamped(v: u64) -> u64 {
    if v >= REACH_THRESH {
        MAX_COST
    } else {
        v
    }
}

/// Costs too large to be real count as "no way".
pub(crate) fn clamp_unreached(v: u64) -> (r: u64)
    ensures
        r == clamped(v),
{
    if v >= REACH_THRESH {
        MAX_COST
    } else {
        v
    }
}

/// Bytes that the first `n` tiles take.
pub open spec fn tiles_size(tiles: Seq<EdgesView>, n: int) -> int
    decreases n,
{
    if n <= 0 {
        0
    } else {
        tiles_size(tiles, n - 1) + 4 + tiles[n - 1].portals.len() * 4 + tiles[n - 1].w.len() * 8
    }
}

/// Bytes that an artifact takes: magic, seven numbers, and the two lists with
/// their lengths.
pub open spec fn byte_size(a: ArtifactView) -> int {
    8 + 7 * 4 + 4 + a.portals.len() * 12 + 4 + tiles_size(a.tiles, a.tiles.len() as int)
}

pub proof fn lemma_tiles_size_mono(tiles: Seq<EdgesView>, i: int, n: int)
    requires
        0 <= i <= n,
    ensures
        0 <= tiles_size(tiles, i) <= tiles_size(tiles, n),
    decreases n,
{
    if i < n {
        lemma_tiles_size_mono(tiles, i, n - 1);
    } else if n > 0 {
        lemma_tiles_size_mono(tiles, n - 1, n - 1);
    }
}

impl SchurArtifact {
    /// Side of a tile's domain, in cells.
    pub open spec fn side_len(self) -> int {
        self.tile + 2 * self.halo
    }

    /// First column (row) of the domain of the tiles in column (row) `k`.
    pub open spec fn origin(self, k: int) -> int {
        k * self.tile - self.halo
    }

    /// Size of the artifact in bytes, as it is stored.
    pub fn size_bytes(&self) -> (r: usize)
        requires
            byte_size(self@) <= usize::MAX,
        ensures
            r == byte_size(self@),
    {
        proof {
            lemma_tiles_size_mono(self@.tiles, 0, self@.tiles.len() as int);
        }
        let mut n: usize = 8 + 7 * 4 + 4 + self.portals.len() * 12 + 4;
        let mut k: usize = 0;
        while k < self.tiles.len()
            invariant
                k <= self.tiles.len(),
                n == 44 + self.portals@.len() * 12 + tiles_size(self@.tiles, k as int),
                byte_size(self@) <= usize::MAX,
                self@.tiles.len() == self.tiles@.len(),
            decreases self.tiles.len() - k,
        {
            let e: &TileEdges = &self.tiles[k];
            proof {
                lemma_tiles_size_mono(self@.tiles, k + 1, self@.tiles.len() as int);
                assert(self@.tiles[k as int] == e@);
            }
            n += 4 + e.portals.len() * 4 + e.w.len() * 8;
            k += 1;
        }
        n
    }
}

} // verus!
