//! Cutter Grid: the player drives the tool tip through a fixed world-axis
//! lattice instead of commanding joints directly.

use crate::number::Real;
use vstd::prelude::*;

verus! {

/// Which editor a program was written in.
///
/// One servo command drives a joint to an angle; one Cutter Grid command
/// crosses a single lattice cell. The same challenge attempted in the two modes
/// is two different tasks, so their scores are not compared.
#[derive(Clone, Copy, Debug, PartialEq, Eq, PartialOrd, Ord, Structural)]
pub enum ProgrammingMode {
    /// Joint angles. The default.
    Servo,
    /// Tool tip through the lattice.
    CutterGrid,
}

impl Default for ProgrammingMode {
    fn default() -> (r: ProgrammingMode)
        ensures
            r == ProgrammingMode::Servo,
    {
        ProgrammingMode::Servo
    }
}

impl ProgrammingMode {
    /// Wire spelling of a mode.
    pub open spec fn spelling(self) -> Seq<char> {
        match self {
            ProgrammingMode::Servo => "servo"@,
            ProgrammingMode::CutterGrid => "cutter-grid"@,
        }
    }

    /// Every mode, in a stable order.
    pub fn all() -> (r: [ProgrammingMode; 2])
        ensures
            r@ == seq![ProgrammingMode::Servo, ProgrammingMode::CutterGrid],
    {
        [ProgrammingMode::Servo, ProgrammingMode::CutterGrid]
    }

    /// Stable identifier, matching the wire form.
    pub fn as_str(self) -> (r: &'static str)
        ensures
            r@ == self.spelling(),
    {
        match self {
            ProgrammingMode::Servo => "servo",
            ProgrammingMode::CutterGrid => "cutter-grid",
        }
    }

    /// Whether this is the reference mode, which is also what an absent value
    /// means everywhere the field is skipped.
    pub fn is_default(&self) -> (r: bool)
        ensures
            r == (*self == ProgrammingMode::Servo),
    {
        matches!(*self, ProgrammingMode::Servo)
    }
}

/// Planner build that produced a version 2 plan.
pub const CUTTER_GRID_LADDER_PLANNER_VERSION: &'static str = "cutter-grid-ladder-v2";

/// Wire version of the trajectory plans this server accepts.
pub const CUTTER_TRAJECTORY_PLAN_VERSION: u32 = 2;

/// Planner build for compact synchronized point-to-point plans.
pub const CUTTER_GRID_COMPACT_PTP_PLANNER_VERSION: &'static str = "cutter-grid-compact-ptp-v4";

/// Wire version of a compact point-to-point trajectory.
pub const CUTTER_TRAJECTORY_PLAN_V4_VERSION: u32 = 4;

/// Version of the server-side planning request and response pair.
pub const CUTTER_GRID_PLAN_API_VERSION: u32 = 1;

/// Integer lattice coordinate in Cutter Grid's own logical frame.
pub type CutterGridCoord = [i32; 3];

/// The six fixed world-axis directions a move may take.
///
/// Fixed to the world, never to the camera or the tool: `Forward` is `-Z`
/// whichever way the arm happens to be pointing.
#[derive(Clone, Copy, Debug, PartialEq, Eq, Structural)]
pub enum CutterGridDirection {
    /// `+X`.
    Right,
    /// `-X`.
    Left,
    /// `+Y`.
    Up,
    /// `-Y`.
    Down,
    /// `-Z`.
    Forward,
    /// `+Z`.
    Backward,
}

impl CutterGridDirection {
    /// Index of the axis a direction moves along.
    pub open spec fn along(self) -> int {
        match self {
            CutterGridDirection::Right | CutterGridDirection::Left => 0,
            CutterGridDirection::Up | CutterGridDirection::Down => 1,
            CutterGridDirection::Forward | CutterGridDirection::Backward => 2,
        }
    }

    /// `1` towards the positive end of the axis, `-1` towards the negative.
    pub open spec fn orientation(self) -> int {
        match self {
            CutterGridDirection::Right | CutterGridDirection::Up | CutterGridDirection::Backward => 1,
            CutterGridDirection::Left | CutterGridDirection::Down | CutterGridDirection::Forward => -1,
        }
    }

    /// The step of one cell, by component.
    pub open spec fn step(self) -> Seq<i32> {
        Seq::new(
            3,
            |i: int| if i == self.along() { self.orientation() as i32 } else { 0i32 },
        )
    }

    /// Lattice step this direction takes, one cell.
    pub fn delta(self) -> (r: CutterGridCoord)
        ensures
            r@ == self.step(),
    {
        match self {
            CutterGridDirection::Right => [1, 0, 0],
            CutterGridDirection::Left => [-1, 0, 0],
            CutterGridDirection::Up => [0, 1, 0],
            CutterGridDirection::Down => [0, -1, 0],
            CutterGridDirection::Forward => [0, 0, -1],
            CutterGridDirection::Backward => [0, 0, 1],
        }
    }

    /// Which world axis this direction moves along, as an index into a point.
    pub fn axis(self) -> (r: usize)
        ensures
            r == self.along(),
    {
        match self {
            CutterGridDirection::Right | CutterGridDirection::Left => 0,
            CutterGridDirection::Up | CutterGridDirection::Down => 1,
            CutterGridDirection::Forward | CutterGridDirection::Backward => 2,
        }
    }

    /// `1` or `-1` along [`Self::axis`].
    pub fn sign(self) -> (r: i32)
        ensures
            r == self.orientation(),
    {
        match self {
            CutterGridDirection::Right | CutterGridDirection::Up | CutterGridDirection::Backward => 1,
            CutterGridDirection::Left | CutterGridDirection::Down | CutterGridDirection::Forward => -1,
        }
    }
}

/// The axis and the sign of a direction rebuild its step: the sign on that axis
/// and nothing on the others.
pub proof fn law_axis_and_sign_rebuild_the_step(direction: CutterGridDirection, i: int)
    requires
        0 <= i < 3,
    ensures
        direction.step().len() == 3,
        0 <= direction.along() < 3,
        i == direction.along() ==> direction.step()[i] == direction.orientation(),
        i != direction.along() ==> direction.step()[i] == 0,
{
}

/// A node of the player's Cutter Grid program.
#[derive(Debug)]
pub enum CutterGridNode {
    /// Travel `distance` whole cells along a fixed world axis.
    Move {
        /// Which way.
        direction: CutterGridDirection,
        /// Cells to travel.
        distance: u32,
        /// Originating editor block, for error attribution.
        source_block_id: String,
    },
    /// Hold position.
    Wait {
        /// Duration in milliseconds.
        duration_ms: Real,
        /// Originating editor block.
        source_block_id: String,
    },
    /// Repeat `body` `count` times.
    Repeat {
        /// Iteration count.
        count: u32,
        /// Nested nodes.
        body: Vec<CutterGridNode>,
        /// Originating editor block.
        source_block_id: String,
    },
}

impl CutterGridNode {
    /// The block a node came from.
    pub open spec fn block(self) -> Seq<char> {
        match self {
            CutterGridNode::Move { source_block_id, .. } => source_block_id@,
            CutterGridNode::Wait { source_block_id, .. } => source_block_id@,
            CutterGridNode::Repeat { source_block_id, .. } => source_block_id@,
        }
    }

    /// Editor block this node came from.
    pub fn source_block_id(&self) -> (r: &str)
        ensures
            r@ == self.block(),
    {
        match self {
            CutterGridNode::Move { source_block_id, .. } => source_block_id.as_str(),
            CutterGridNode::Wait { source_block_id, .. } => source_block_id.as_str(),
            CutterGridNode::Repeat { source_block_id, .. } => source_block_id.as_str(),
        }
    }
}

/// One indivisible thing the arm does: cross one cell, or wait.
#[derive(Clone, Debug, PartialEq, Eq)]
pub enum CutterGridAction {
    /// Cross one cell in a fixed direction.
    MoveCell {
        /// Which way.
        direction: CutterGridDirection,
        /// Originating editor block.
        source_block_id: String,
    },
    /// Hold position.
    Wait {
        /// Duration in milliseconds.
        duration_ms: Real,
        /// Originating editor block.
        source_block_id: String,
    },
}

impl CutterGridAction {
    /// The block an action came from.
    pub open spec fn block(self) -> Seq<char> {
        match self {
            CutterGridAction::MoveCell { source_block_id, .. } => source_block_id@,
            CutterGridAction::Wait { source_block_id, .. } => source_block_id@,
        }
    }

    /// Editor block this action came from.
    pub fn source_block_id(&self) -> (r: &str)
        ensures
            r@ == self.block(),
    {
        match self {
            CutterGridAction::MoveCell { source_block_id, .. } => source_block_id.as_str(),
            CutterGridAction::Wait { source_block_id, .. } => source_block_id.as_str(),
        }
    }
}

/// The player's program, as written.
#[derive(Debug)]
pub struct CutterGridProgram {
    /// Always `cutter-grid`.
    pub kind: String,
    /// Language version.
    pub version: u32,
    /// Planner build the client compiled against.
    pub planner_version: String,
    /// Top-level nodes.
    pub nodes: Vec<CutterGridNode>,
    /// Enabled, non-shadow blocks in the source workspace.
    pub source_block_count: u32,
}

/// What a trajectory step does.
#[derive(Clone, Copy, Debug, PartialEq, Eq, Structural)]
pub enum CutterTrajectoryStepKind {
    /// Cross one cell.
    MoveCell,
    /// Hold position.
    Wait,
}

/// A finite bounds box in Cutter Grid's logical coordinate frame.
#[derive(Clone, Debug, PartialEq, Eq)]
pub struct CutterGridBoundsV4 {
    /// Inclusive lower coordinate.
    pub min: CutterGridCoord,
    /// Inclusive upper coordinate.
    pub max: CutterGridCoord,
}

/// A static safe-pose result for a grid node.
#[derive(Clone, Copy, Debug, PartialEq, Eq, Structural)]
pub enum CutterGridStaticIkStatusV4 {
    /// At least one safe pose was certified for this coordinate.
    SafeCandidateKnown,
    /// The fixed search budget found no safe pose.
    NoSafeCandidateFound,
}

/// A directed roadmap edge.
#[derive(Clone, Debug, PartialEq, Eq)]
pub struct CutterGridRoadmapEdgeV4 {
    /// Origin node id.
    pub from_node_id: String,
    /// Destination node id.
    pub to_node_id: String,
}

/// Stable planner failure categories.
#[derive(Clone, Copy, Debug, PartialEq, Eq, Structural)]
pub enum CutterGridPlanningErrorCodeV4 {
    /// The server has no certified planner or profile for this challenge.
    PlannerNotReady,
    /// Client-side cancellation reached a cooperative planner.
    PlanningCancelled,
    /// Profile version or signature did not match the challenge.
    ProfileV4Mismatch,
    /// A requested endpoint leaves the finite grid.
    OutOfBounds,
    /// No initial seed reached the endpoint.
    EndpointIkNotConverged,
    /// The deterministic candidate budget was exhausted.
    EndpointIkSearchExhausted,
    /// Endpoint candidates exist but no safe edge connects them.
    EndpointPtpDisconnected,
    /// A route would need more than two primitives for one visible move.
    MotionPrimitiveBudgetExhausted,
    /// A primitive intersects the head.
    PtpCollision,
    /// A safety certificate could not be proven.
    PtpCertificateFailed,
    /// Tool sweep certification failed.
    ActualSweepCertificationFailed,
    /// The assembled plan failed its own integrity check.
    PlanSignatureMismatch,
}

impl CutterGridPlanningErrorCodeV4 {
    /// Wire spelling of a failure category.
    pub open spec fn spelling(self) -> Seq<char> {
        match self {
            CutterGridPlanningErrorCodeV4::PlannerNotReady => "planner-not-ready"@,
            CutterGridPlanningErrorCodeV4::PlanningCancelled => "planning-cancelled"@,
            CutterGridPlanningErrorCodeV4::ProfileV4Mismatch => "profile-v4-mismatch"@,
            CutterGridPlanningErrorCodeV4::OutOfBounds => "out-of-bounds"@,
            CutterGridPlanningErrorCodeV4::EndpointIkNotConverged => "endpoint-ik-not-converged"@,
            CutterGridPlanningErrorCodeV4::EndpointIkSearchExhausted => "endpoint-ik-search-exhausted"@,
            CutterGridPlanningErrorCodeV4::EndpointPtpDisconnected => "endpoint-ptp-disconnected"@,
            CutterGridPlanningErrorCodeV4::MotionPrimitiveBudgetExhausted =>
                "motion-primitive-budget-exhausted"@,
            CutterGridPlanningErrorCodeV4::PtpCollision => "ptp-collision"@,
            CutterGridPlanningErrorCodeV4::PtpCertificateFailed => "ptp-certificate-failed"@,
            CutterGridPlanningErrorCodeV4::ActualSweepCertificationFailed =>
                "actual-sweep-certification-failed"@,
            CutterGridPlanningErrorCodeV4::PlanSignatureMismatch => "plan-signature-mismatch"@,
        }
    }

    /// Stable wire spelling.
    pub fn as_str(self) -> (r: &'static str)
        ensures
            r@ == self.spelling(),
    {
        match self {
            CutterGridPlanningErrorCodeV4::PlannerNotReady => "planner-not-ready",
            CutterGridPlanningErrorCodeV4::PlanningCancelled => "planning-cancelled",
            CutterGridPlanningErrorCodeV4::ProfileV4Mismatch => "profile-v4-mismatch",
            CutterGridPlanningErrorCodeV4::OutOfBounds => "out-of-bounds",
            CutterGridPlanningErrorCodeV4::EndpointIkNotConverged => "endpoint-ik-not-converged",
            CutterGridPlanningErrorCodeV4::EndpointIkSearchExhausted => "endpoint-ik-search-exhausted",
            CutterGridPlanningErrorCodeV4::EndpointPtpDisconnected => "endpoint-ptp-disconnected",
            CutterGridPlanningErrorCodeV4::MotionPrimitiveBudgetExhausted =>
                "motion-primitive-budget-exhausted",
            CutterGridPlanningErrorCodeV4::PtpCollision => "ptp-collision",
            CutterGridPlanningErrorCodeV4::PtpCertificateFailed => "ptp-certificate-failed",
            CutterGridPlanningErrorCodeV4::ActualSweepCertificationFailed =>
                "actual-sweep-certification-failed",
            CutterGridPlanningErrorCodeV4::PlanSignatureMismatch => "plan-signature-mismatch",
        }
    }
}

/// The planning pipeline stage that produced a failure.
#[derive(Clone, Copy, Debug, PartialEq, Eq, Structural)]
pub enum CutterGridPlanningStageV4 {
    /// Profile loading or validation.
    Profile,
    /// Endpoint candidate generation.
    Endpoint,
    /// Direct edge validation.
    PtpEdge,
    /// Joint-space roadmap fallback.
    Roadmap,
    /// Dynamic motion certification.
    MotionCertificate,
    /// Tool sweep certification.
    SweepCertificate,
    /// Canonical plan serialization and signature.
    Serialization,
}

impl CutterGridPlanningStageV4 {
    /// Wire spelling of a stage.
    pub open spec fn spelling(self) -> Seq<char> {
        match self {
            CutterGridPlanningStageV4::Profile => "profile"@,
            CutterGridPlanningStageV4::Endpoint => "endpoint"@,
            CutterGridPlanningStageV4::PtpEdge => "ptp-edge"@,
            CutterGridPlanningStageV4::Roadmap => "roadmap"@,
            CutterGridPlanningStageV4::MotionCertificate => "motion-certificate"@,
            CutterGridPlanningStageV4::SweepCertificate => "sweep-certificate"@,
            CutterGridPlanningStageV4::Serialization => "serialization"@,
        }
    }

    /// Stable wire spelling.
    pub fn as_str(self) -> (r: &'static str)
        ensures
            r@ == self.spelling(),
    {
        match self {
            CutterGridPlanningStageV4::Profile => "profile",
            CutterGridPlanningStageV4::Endpoint => "endpoint",
            CutterGridPlanningStageV4::PtpEdge => "ptp-edge",
            CutterGridPlanningStageV4::Roadmap => "roadmap",
            CutterGridPlanningStageV4::MotionCertificate => "motion-certificate",
            CutterGridPlanningStageV4::SweepCertificate => "sweep-certificate",
            CutterGridPlanningStageV4::Serialization => "serialization",
        }
    }
}


/// Right, up and backward lead to larger coordinates, left, down and forward to smaller ones, on the
/// first, the second and the third axis, one cell at a time.
pub proof fn law_directions_lead_along_their_axes()
    ensures
        CutterGridDirection::Right.step() == seq![1i32, 0, 0],
        CutterGridDirection::Left.step() == seq![-1i32, 0, 0],
        CutterGridDirection::Up.step() == seq![0i32, 1, 0],
        CutterGridDirection::Down.step() == seq![0i32, -1i32, 0],
        CutterGridDirection::Backward.step() == seq![0i32, 0, 1],
        CutterGridDirection::Forward.step() == seq![0i32, 0, -1i32],
{
    assert(CutterGridDirection::Right.step() =~= seq![1i32, 0, 0]);
    assert(CutterGridDirection::Left.step() =~= seq![-1i32, 0, 0]);
    assert(CutterGridDirection::Up.step() =~= seq![0i32, 1, 0]);
    assert(CutterGridDirection::Down.step() =~= seq![0i32, -1i32, 0]);
    assert(CutterGridDirection::Backward.step() =~= seq![0i32, 0, 1]);
    assert(CutterGridDirection::Forward.step() =~= seq![0i32, 0, -1i32]);
}


/// How the modes, the planner's failures and its stages are spelled for the clients that read them.
pub proof fn law_what_clients_read_is_spelled_as_agreed()
    ensures
        ProgrammingMode::Servo.spelling() == "servo"@,
        ProgrammingMode::CutterGrid.spelling() == "cutter-grid"@,
        CutterGridPlanningErrorCodeV4::PlannerNotReady.spelling() == "planner-not-ready"@,
        CutterGridPlanningErrorCodeV4::PlanningCancelled.spelling() == "planning-cancelled"@,
        CutterGridPlanningErrorCodeV4::ProfileV4Mismatch.spelling() == "profile-v4-mismatch"@,
        CutterGridPlanningErrorCodeV4::OutOfBounds.spelling() == "out-of-bounds"@,
        CutterGridPlanningErrorCodeV4::EndpointIkNotConverged.spelling()
            == "endpoint-ik-not-converged"@,
        CutterGridPlanningErrorCodeV4::EndpointIkSearchExhausted.spelling()
            == "endpoint-ik-search-exhausted"@,
        CutterGridPlanningErrorCodeV4::EndpointPtpDisconnected.spelling()
            == "endpoint-ptp-disconnected"@,
        CutterGridPlanningErrorCodeV4::MotionPrimitiveBudgetExhausted.spelling()
            == "motion-primitive-budget-exhausted"@,
        CutterGridPlanningErrorCodeV4::PtpCollision.spelling() == "ptp-collision"@,
        CutterGridPlanningErrorCodeV4::PtpCertificateFailed.spelling() == "ptp-certificate-failed"@,
        CutterGridPlanningErrorCodeV4::ActualSweepCertificationFailed.spelling()
            == "actual-sweep-certification-failed"@,
        CutterGridPlanningErrorCodeV4::PlanSignatureMismatch.spelling() == "plan-signature-mismatch"@,
        CutterGridPlanningStageV4::Profile.spelling() == "profile"@,
        CutterGridPlanningStageV4::Endpoint.spelling() == "endpoint"@,
        CutterGridPlanningStageV4::PtpEdge.spelling() == "ptp-edge"@,
        CutterGridPlanningStageV4::Roadmap.spelling() == "roadmap"@,
        CutterGridPlanningStageV4::MotionCertificate.spelling() == "motion-certificate"@,
        CutterGridPlanningStageV4::SweepCertificate.spelling() == "sweep-certificate"@,
        CutterGridPlanningStageV4::Serialization.spelling() == "serialization"@,
{
}

}
