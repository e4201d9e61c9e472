//! Solvers: each repeats the update of single states, in an order of its own,
//! until nothing moves.
pub mod agreement;
pub mod bitboard;
pub mod compact;
pub mod descent;
pub mod displacement;
pub mod fixed_point;
pub mod fixed_point3;
pub mod frontier2d;
pub mod frontier3d;
pub mod gpu;
pub mod landing;
pub mod observe;
pub mod ordered;
pub mod schur;
