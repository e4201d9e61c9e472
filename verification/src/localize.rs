//! Where the robot's pose comes from: from outside, or from a belief over a window of
//! the map that grows coarser and wider when the robot is lost.
pub mod external;
pub mod level;
pub mod ladder;
pub mod window;
