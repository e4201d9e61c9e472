//! Tiled solver: crossing costs between portals, computed once per map, turn the
//! solve for any goal into a search over portals and one small solve per tile.
//!
//! The map is cut into square tiles. A tile is solved on its domain: the tile and
//! a margin as wide as an action reaches. On the lines between tiles stand
//! portals, each a patch of states around its centre. For each tile and each pair
//! of its portals, the artifact holds what it costs at most to come from any state
//! of the one patch to some state of the other inside the domain. For a goal,
//! portal values are shortest distances over these crossings; a tile is then
//! restored by pinning its portals at these values.
pub mod agree;
pub mod artifact;
pub mod corridor;
pub mod crossing;
pub mod bound;
pub mod codec;
pub mod domain;
pub mod fix;
pub mod heap;
pub mod joint;
pub mod laws;
pub mod materialize;
pub mod merge;
pub mod order;
pub mod patch;
pub mod place;
pub mod query;
pub mod restore;
pub mod room;
pub mod same;
pub mod search;
pub mod solve;
pub mod sweep;
pub mod tile;
pub mod upper;

pub use artifact::{Portal, SchurArtifact, SchurConfig, TileEdges};
pub use codec::LoadError;
pub use corridor::corridor_tiles;
pub use crossing::{build, build_with, can_build};
pub use fix::fix_portal_actions;
pub use patch::{patch_agg, PatchAgg};
pub use place::place_portals;
pub use restore::{materialize_many, materialize_one, materialize_one_multi, TileScratch};
pub use search::{
    portal_costs, portal_costs_agg, portal_costs_masked, portal_costs_with, PortalDijkstra,
};
pub use solve::{
    can_solve, schur_solve_agg, schur_solve_observed, schur_solve_observed_agg,
    schur_solve_with, upper_bound_field, upper_bound_field_agg,
};
pub use tile::TileVi;
