//! Host side of the solvers that run on a graphics card: the tables that kernels
//! read, the decisions between launches, and reading the results back.
pub mod layout;
pub mod outcomes;
pub mod goal;
pub mod rounds;
pub mod jobs;

pub mod plan;
pub mod batch;
pub mod judge;
pub mod chunk;
pub mod laws;
