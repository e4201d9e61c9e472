//! A pose from outside, passed through as it is.
use vstd::prelude::*;

verus! {

/// Where the robot is: millionths of a metre, and millionths of a degree.
#[derive(Clone, Copy, Debug, PartialEq, Eq, Structural)]
pub struct Pose {
    pub x: i64,
    pub y: i64,
    pub yaw: i64,
}

/// Passes the last pose from outside through.
#[derive(Clone, Copy, Debug, PartialEq, Eq, Structural)]
pub struct ExternalLocalizer {
    pub last: Option<Pose>,
}

impl Default for ExternalLocalizer {
    fn default() -> (r: ExternalLocalizer)
        ensures
            r.last is None,
    {
        ExternalLocalizer { last: None }
    }
}

impl ExternalLocalizer {
    /// Name of this source of poses.
    pub fn name(&self) -> (r: &'static str)
        ensures
            r@ == "external"@,
    {
        "external"
    }

    /// Takes a pose in.
    pub fn set_pose(&mut self, pose: Pose)
        ensures
            final(self).last == Some(pose),
    {
        self.last = Some(pose);
    }

    /// The last pose that was taken in.
    pub fn pose(&self) -> (r: Option<Pose>)
        ensures
            r == self.last,
    {
        self.last
    }
}

} // verus!
