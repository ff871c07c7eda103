//! The vocabulary: what a drawable thing can be doing, and how a sequence advances.

use vstd::prelude::*;

verus! {

/// Every pose any drawable thing in the game can be in.
///
/// The first twelve are the sprite table's. `Move` and `Air` are a creature's, and `Idle` is
/// shared between the two.
#[derive(Clone, Copy, Debug, PartialEq, Eq, Hash, Structural)]
pub enum Pose {
    Idle,
    Run,
    Skid,
    Jump,
    DoubleJump,
    Fall,
    Land,
    Dash,
    WallSlide,
    Swim,
    Punch,
    Hurt,
    /// A creature's walk cycle.
    Move,
    /// A creature off the ground.
    Air,
}

/// How many poses there are: the width of a sprite's id table.
pub const POSE_COUNT: usize = 14;

/// The pose's place in an id table.
pub open spec fn pose_index(pose: Pose) -> int {
    match pose {
        Pose::Idle => 0,
        Pose::Run => 1,
        Pose::Skid => 2,
        Pose::Jump => 3,
        Pose::DoubleJump => 4,
        Pose::Fall => 5,
        Pose::Land => 6,
        Pose::Dash => 7,
        Pose::WallSlide => 8,
        Pose::Swim => 9,
        Pose::Punch => 10,
        Pose::Hurt => 11,
        Pose::Move => 12,
        Pose::Air => 13,
    }
}

/// The pose's name, as it appears in a message.
pub open spec fn pose_name(pose: Pose) -> Seq<char> {
    match pose {
        Pose::Idle => "Idle"@,
        Pose::Run => "Run"@,
        Pose::Skid => "Skid"@,
        Pose::Jump => "Jump"@,
        Pose::DoubleJump => "DoubleJump"@,
        Pose::Fall => "Fall"@,
        Pose::Land => "Land"@,
        Pose::Dash => "Dash"@,
        Pose::WallSlide => "WallSlide"@,
        Pose::Swim => "Swim"@,
        Pose::Punch => "Punch"@,
        Pose::Hurt => "Hurt"@,
        Pose::Move => "Move"@,
        Pose::Air => "Air"@,
    }
}

impl Pose {
    /// Dense index into an id table.
    pub fn index(self) -> (i: usize)
        ensures
            i == pose_index(self),
            i < POSE_COUNT,
    {
        match self {
            Pose::Idle => 0,
            Pose::Run => 1,
            Pose::Skid => 2,
            Pose::Jump => 3,
            Pose::DoubleJump => 4,
            Pose::Fall => 5,
            Pose::Land => 6,
            Pose::Dash => 7,
            Pose::WallSlide => 8,
            Pose::Swim => 9,
            Pose::Punch => 10,
            Pose::Hurt => 11,
            Pose::Move => 12,
            Pose::Air => 13,
        }
    }

    /// The pose's name, as it appears in a message.
    pub fn name(self) -> (name: &'static str)
        ensures
            name@ == pose_name(self),
    {
        match self {
            Pose::Idle => "Idle",
            Pose::Run => "Run",
            Pose::Skid => "Skid",
            Pose::Jump => "Jump",
            Pose::DoubleJump => "DoubleJump",
            Pose::Fall => "Fall",
            Pose::Land => "Land",
            Pose::Dash => "Dash",
            Pose::WallSlide => "WallSlide",
            Pose::Swim => "Swim",
            Pose::Punch => "Punch",
            Pose::Hurt => "Hurt",
            Pose::Move => "Move",
            Pose::Air => "Air",
        }
    }
}

/// Two poses share a place in an id table only when they are the same pose.
pub proof fn law_pose_index_injective(a: Pose, b: Pose)
    ensures
        0 <= pose_index(a) < POSE_COUNT,
        pose_index(a) == pose_index(b) ==> a == b,
{
}

/// How a sequence advances.
#[derive(Clone, Copy, Debug, PartialEq, Eq, Hash, Structural)]
pub enum PlayMode {
    /// Single frame; ignores the clock entirely.
    Hold,
    /// Free-running off the time since the state was entered.
    Loop,
    /// One-shot; holds the last frame forever.
    Once,
    /// Indexed by an externally driven cadence from 0 to 1, such as a run cycle.
    Phase,
    /// Off the free-running clock, with a blink on the LAST frame.
    Ambient,
}

} // verus!
