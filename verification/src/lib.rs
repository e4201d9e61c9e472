//! Value iteration for mobile robots on an (x, y, heading) lattice.
pub mod action;
pub mod beam;
pub mod belief;
pub mod belief_model;
pub mod bounds;
pub mod chamfer;
pub mod grid;
pub mod local;
pub mod localize;
pub mod model;
pub mod params;
pub mod path;
pub mod planner;
pub mod qmdp;
pub mod shape;
pub mod solvers;
pub mod state;
pub mod text;
pub mod transition;
pub mod usable;
pub mod value_iterator;
