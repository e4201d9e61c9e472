//! Where the robot may be: a belief over all states of the map.
//!
//! Weights are real numbers and belong to the callers; what is here are the parts that
//! count, compare and decide.
pub mod index;

pub mod minplus;
pub mod viterbi;
pub mod evidence;
pub mod rank;
pub mod modes;
pub mod field;
pub mod pool;
pub mod reloc;
pub mod latch;
