//! Challenges, programs and scores.

use crate::number::Real;
use crate::rounding::{
    law_equal_values_rank_alike, law_finite_numbers_add_up, law_one_leaves_a_number_alone,
    law_sums_keep_order, law_whole_numbers_are_added_exactly,
};
use vstd::prelude::*;

verus! {

/// Canonical simulation tick, milliseconds.
///
/// Replay always advances by exactly this amount, so a run is a pure function
/// of the challenge and the program.
pub const SIM_TICK_MS: u32 = 5;

/// Maximum atomic commands an expanded program may contain.
pub const MAX_RUNTIME_COMMANDS: usize = 500;

/// Identifier of a simulated joint, such as `baseYaw`.
pub type JointId = String;

/// A configured measurement: its value, and the shortest decimal that reads
/// back as that value.
#[derive(Clone, Debug, PartialEq, Eq)]
pub struct Number {
    /// The value.
    pub value: Real,
    /// Shortest decimal spelling of the value.
    pub shortest: String,
}

/// A world-space point.
pub type Vec3 = [Number; 3];

/// Rotation axis a joint turns about.
#[derive(Clone, Copy, Debug, PartialEq, Eq, Structural)]
pub enum Axis {
    /// Rotation about world X.
    X,
    /// Rotation about world Y.
    Y,
    /// Rotation about world Z.
    Z,
}

/// Integer voxel lattice coordinate.
#[derive(Clone, Copy, Debug, PartialEq, Eq, PartialOrd, Ord, Hash, Structural)]
pub struct VoxelCoord {
    /// Lattice X.
    pub x: i32,
    /// Lattice Y.
    pub y: i32,
    /// Lattice Z.
    pub z: i32,
}

/// A servo on the arm.
#[derive(Clone, Copy, Debug, PartialEq, Eq, Structural)]
pub enum ServoAxisId {
    /// Base rotation.
    X,
    /// Shoulder.
    Y,
    /// Elbow.
    Z,
    /// Wrist balance.
    B,
    /// Cutter open and close. Present on the hardware, not simulated.
    E,
}

/// Affine map between a joint's servo degrees and the geometric angle the
/// kinematics rotates by.
#[derive(Clone, Debug, PartialEq, Eq)]
pub struct ServoMapping {
    /// Which physical servo this joint drives.
    pub axis: ServoAxisId,
    /// Servo angle the joint's `offset_deg` lands on.
    pub center_deg: Number,
    /// `+1` when the servo turns the same way as the model, `-1` when it opposes.
    pub direction: i8,
    /// Geometric angle that `center_deg` corresponds to.
    pub offset_deg: Number,
}

impl ServoMapping {
    /// The arm angle that a servo angle stands for.
    pub open spec fn geometric(self, servo_deg: Real) -> Real {
        self.offset_deg.value.plus(
            Real::from_whole(self.direction as int).times(servo_deg.minus(self.center_deg.value)),
        )
    }

    /// The servo angle that an arm angle stands for.
    pub open spec fn commanded(self, geometric_deg: Real) -> Real {
        self.center_deg.value.plus(
            Real::from_whole(self.direction as int).times(
                geometric_deg.minus(self.offset_deg.value),
            ),
        )
    }

    /// Servo degrees to the geometric angle the kinematics rotates by.
    pub fn to_geometric_deg(&self, servo_deg: Real) -> (r: Real)
        ensures
            r == self.geometric(servo_deg),
    {
        self.offset_deg.value.sum(
            Real::of_whole(self.direction as i32).multiply(
                servo_deg.subtract(self.center_deg.value),
            ),
        )
    }

    /// Geometric angle to the degrees the servo is commanded to.
    pub fn to_servo_deg(&self, geometric_deg: Real) -> (r: Real)
        ensures
            r == self.commanded(geometric_deg),
    {
        self.center_deg.value.sum(
            Real::of_whole(self.direction as i32).multiply(
                geometric_deg.subtract(self.offset_deg.value),
            ),
        )
    }
}

/// One servo-driven joint of the simulated arm.
#[derive(Clone, Debug, PartialEq, Eq)]
pub struct JointConfig {
    /// Stable identifier used by programs.
    pub id: JointId,
    /// Human-readable name.
    pub name: String,
    /// Axis this joint rotates about.
    pub axis: Axis,
    /// Lower travel limit, servo degrees when `servo` is present.
    pub min_angle_deg: Number,
    /// Upper travel limit, servo degrees when `servo` is present.
    pub max_angle_deg: Number,
    /// Angle at reset, servo degrees when `servo` is present.
    pub initial_angle_deg: Number,
    /// Slew rate used for duration estimation, degrees per second.
    pub speed_deg_per_sec: Number,
    /// How this joint's angles map onto a servo on the physical arm. Absent for
    /// joints the hardware has no axis for.
    pub servo: Option<ServoMapping>,
}

/// Capsule radii used by the head-collision constraint.
#[derive(Clone, Debug, PartialEq, Eq)]
pub struct RobotCollisionConfig {
    /// Radius of the arm links.
    pub link_radius: Number,
    /// Radius of the joint spheres.
    pub joint_radius: Number,
    /// Radius of the tool shaft.
    pub tool_shaft_radius: Number,
    /// Extra margin added to every primitive before the head test.
    pub head_clearance: Number,
}

/// Static geometry of the arm.
#[derive(Clone, Debug, PartialEq, Eq)]
pub struct RobotGeometryConfig {
    /// World position of the base.
    pub base_position: Vec3,
    /// Height from base to shoulder.
    pub shoulder_height: Number,
    /// Shoulder-to-elbow length.
    pub upper_arm_length: Number,
    /// Elbow-to-wrist length.
    pub forearm_length: Number,
    /// Wrist-to-tip length.
    pub tool_length: Number,
    /// Radius of the cutting sphere swept against hair voxels.
    pub tool_radius: Number,
    /// Collision radii.
    pub collision: RobotCollisionConfig,
}

/// Joints plus geometry.
#[derive(Clone, Debug, PartialEq, Eq)]
pub struct RobotConfig {
    /// Ordered joint definitions.
    pub joints: Vec<JointConfig>,
    /// Arm geometry.
    pub geometry: RobotGeometryConfig,
}

/// Voxel lattice placement and the head ellipsoid.
#[derive(Clone, Debug, PartialEq, Eq)]
pub struct VoxelConfig {
    /// World position of the lattice origin.
    pub origin: Vec3,
    /// Edge length of one voxel.
    pub size: Number,
    /// Centre of the impenetrable head ellipsoid.
    pub head_center: Vec3,
    /// Semi-axes of the head ellipsoid.
    pub head_scale: Vec3,
}

/// A named set of hair voxels.
#[derive(Clone, Debug, PartialEq, Eq)]
pub struct HairstyleDefinition {
    /// Stable identifier.
    pub id: String,
    /// Human-readable name.
    pub name: String,
    /// Occupied lattice cells.
    pub voxels: Vec<VoxelCoord>,
}

/// Relative weights of the three score components.
#[derive(Clone, Copy, Debug, PartialEq, Eq, Structural)]
pub struct ScoreWeights {
    /// Weight of voxel overlap with the target.
    pub completion: Real,
    /// Weight of program economy.
    pub efficiency: Real,
    /// Weight of estimated runtime.
    pub time: Real,
}

/// Scoring parameters carried by a challenge.
#[derive(Clone, Copy, Debug, PartialEq, Eq, Structural)]
pub struct ScoringConfig {
    /// Component weights.
    pub weights: ScoreWeights,
    /// Program cost that scores 100 on efficiency.
    pub reference_program_cost: Real,
    /// Duration that scores 100 on time.
    pub reference_time_ms: Real,
    /// Cost multiplier applied to each executed command.
    pub command_weight: Real,
}

/// Program size and timing measurements.
#[derive(Clone, Copy, Debug, PartialEq, Eq, Structural)]
pub struct ProgramMetrics {
    /// Enabled, non-shadow blocks in the source workspace.
    pub source_block_count: u32,
    /// Atomic commands actually completed. A halted program reports fewer.
    pub executed_command_count: u32,
    /// Estimated duration of the expanded command list.
    pub estimated_duration_ms: Real,
}

impl ProgramMetrics {
    /// No blocks, no commands, no time.
    pub open spec fn none() -> ProgramMetrics {
        ProgramMetrics {
            source_block_count: 0,
            executed_command_count: 0,
            estimated_duration_ms: Real { bits: 0 },
        }
    }
}

impl Default for ProgramMetrics {
    fn default() -> (r: ProgramMetrics)
        ensures
            r == ProgramMetrics::none(),
    {
        ProgramMetrics {
            source_block_count: 0,
            executed_command_count: 0,
            estimated_duration_ms: Real::zero(),
        }
    }
}

/// The numbers shown to the learner.
#[derive(Clone, Copy, Debug, PartialEq, Eq, Structural)]
pub struct ScoreResult {
    /// Voxel overlap with the target, 0 to 100.
    pub completion_score: Real,
    /// Program economy, 0 to 100.
    pub efficiency_score: Real,
    /// Runtime economy, 0 to 100.
    pub time_score: Real,
    /// Weighted total, 0 to 100.
    pub final_score: Real,
    /// Raw cost that produced `efficiency_score`.
    pub program_cost: Real,
}

/// Block kinds a challenge may permit.
#[derive(Clone, Copy, Debug, PartialEq, Eq, Structural)]
pub enum AllowedBlockType {
    /// Drive one joint to an absolute angle.
    SetJointAngle,
    /// Idle for a fixed duration.
    Wait,
    /// Repeat a body a fixed number of times.
    Repeat,
}

/// A full challenge.
#[derive(Clone, Debug, PartialEq, Eq)]
pub struct ChallengeDefinition {
    /// Stable identifier.
    pub id: String,
    /// Display name.
    pub name: String,
    /// Display description.
    pub description: String,
    /// Arm definition.
    pub robot_config: RobotConfig,
    /// Lattice and head placement.
    pub voxel_config: VoxelConfig,
    /// Hair present at reset.
    pub initial_hair: HairstyleDefinition,
    /// Hair the learner is aiming for.
    pub target_hair: HairstyleDefinition,
    /// Blocks permitted in the editor.
    pub allowed_blocks: Vec<AllowedBlockType>,
    /// Editor workspace as JSON text; passed through, never interpreted.
    pub starter_workspace: Option<String>,
    /// Scoring parameters.
    pub scoring: ScoringConfig,
}

/// One atomic, executable command.
#[derive(Clone, Debug, PartialEq, Eq)]
pub enum RobotCommand {
    /// Drive a joint to an absolute angle at its configured speed.
    SetJointAngle {
        /// Joint to drive.
        joint_id: JointId,
        /// Absolute target angle, degrees.
        angle_deg: Real,
        /// Originating editor block, for error attribution.
        source_block_id: String,
    },
    /// Hold position for a duration.
    Wait {
        /// Duration in milliseconds.
        duration_ms: Real,
        /// Originating editor block.
        source_block_id: String,
    },
}

impl RobotCommand {
    /// The block a command came from.
    pub open spec fn block(self) -> Seq<char> {
        match self {
            RobotCommand::SetJointAngle { source_block_id, .. } => source_block_id@,
            RobotCommand::Wait { source_block_id, .. } => source_block_id@,
        }
    }

    /// Editor block this command came from.
    pub fn source_block_id(&self) -> (r: &str)
        ensures
            r@ == self.block(),
    {
        match self {
            RobotCommand::SetJointAngle { source_block_id, .. } => source_block_id.as_str(),
            RobotCommand::Wait { source_block_id, .. } => source_block_id.as_str(),
        }
    }
}

/// A node of a program. `Repeat` is expanded away before execution.
#[derive(Debug)]
pub enum ProgramNode {
    /// Drive a joint to an absolute angle.
    SetJointAngle {
        /// Joint to drive.
        joint_id: JointId,
        /// Absolute target angle, degrees.
        angle_deg: Real,
        /// Originating editor block.
        source_block_id: String,
    },
    /// Hold position for a duration.
    Wait {
        /// Duration in milliseconds.
        duration_ms: Real,
        /// Originating editor block.
        source_block_id: String,
    },
    /// Repeat `body` `count` times.
    Repeat {
        /// Iteration count.
        count: u32,
        /// Nested nodes.
        body: Vec<ProgramNode>,
        /// Originating editor block.
        source_block_id: String,
    },
}

/// A compiled program as submitted by a client.
#[derive(Debug)]
pub struct Program {
    /// Top-level nodes.
    pub nodes: Vec<ProgramNode>,
    /// Enabled, non-shadow block count in the source workspace.
    pub source_block_count: u32,
}

/// Why a run stopped.
#[derive(Clone, Copy, Debug, PartialEq, Eq, Structural)]
pub enum TerminalReason {
    /// Every command ran to completion.
    Completed,
    /// A link would have entered the head; the arm stopped at the last safe pose.
    HeadCollision,
    /// Expansion exceeded the atomic-command cap.
    CommandLimit,
    /// The program failed validation.
    Invalid,
    /// The replay exceeded its budget.
    Timeout,
}

/// Terminal state of a run, with attribution when it failed.
#[derive(Debug, PartialEq, Eq)]
pub struct Terminal {
    /// Why the run stopped.
    pub reason: TerminalReason,
    /// Joint being driven when a collision was detected.
    pub joint_id: Option<JointId>,
    /// Last angle that did not collide.
    pub safe_angle_deg: Option<Real>,
    /// Editor block to highlight.
    pub source_block_id: Option<String>,
    /// Which arm part would have touched the head.
    pub part_label: Option<String>,
}

impl Clone for Terminal {
    fn clone(&self) -> (r: Terminal)
        ensures
            r == *self,
    {
        Terminal {
            reason: self.reason,
            joint_id: self.joint_id.clone(),
            safe_angle_deg: self.safe_angle_deg,
            source_block_id: self.source_block_id.clone(),
            part_label: self.part_label.clone(),
        }
    }
}

impl Terminal {
    /// A clean completion with no attribution.
    pub fn completed() -> (r: Terminal)
        ensures
            r == (Terminal {
                reason: TerminalReason::Completed,
                joint_id: None,
                safe_angle_deg: None,
                source_block_id: None,
                part_label: None,
            }),
    {
        Terminal {
            reason: TerminalReason::Completed,
            joint_id: None,
            safe_angle_deg: None,
            source_block_id: None,
            part_label: None,
        }
    }
}

/// Where a servo's mapping is in whole degrees and turns one way or the other, converting
/// whole degrees there and back gives them again, and every degree of the arm is a degree
/// of the servo: with it where they turn the same way, against it where they oppose.
pub proof fn law_servo_degrees_convert_back(servo: ServoMapping, angle: Real, center: int, offset: int, degrees: int)
    requires
        servo.direction == 1 || servo.direction == -1,
        servo.center_deg.value.is_number(center),
        servo.offset_deg.value.is_number(offset),
        angle.is_number(degrees),
        -1_000_000 <= center <= 1_000_000,
        -1_000_000 <= offset <= 1_000_000,
        -1_000_000 <= degrees <= 1_000_000,
    ensures
        servo.geometric(servo.commanded(angle)).equals(angle),
        servo.commanded(servo.geometric(angle)).equals(angle),
        servo.direction == 1 ==> servo.commanded(angle).is_number(center + (degrees - offset)),
        servo.direction == -1 ==> servo.commanded(angle).is_number(center - (degrees - offset)),
        servo.direction == 1 ==> servo.geometric(angle).is_number(offset + (degrees - center)),
        servo.direction == -1 ==> servo.geometric(angle).is_number(offset - (degrees - center)),
{
    lemma_converts(servo, servo.center_deg.value, servo.offset_deg.value, angle, center, offset, degrees);
    lemma_converts(servo, servo.offset_deg.value, servo.center_deg.value, angle, offset, center, degrees);
    let turned = if servo.direction == 1 {
        center + (degrees - offset)
    } else {
        center - (degrees - offset)
    };
    let bent = if servo.direction == 1 {
        offset + (degrees - center)
    } else {
        offset - (degrees - center)
    };
    lemma_converts(
        servo,
        servo.offset_deg.value,
        servo.center_deg.value,
        servo.commanded(angle),
        offset,
        center,
        turned,
    );
    lemma_converts(
        servo,
        servo.center_deg.value,
        servo.offset_deg.value,
        servo.geometric(angle),
        center,
        offset,
        bent,
    );
    law_equal_values_rank_alike(servo.geometric(servo.commanded(angle)), angle);
    law_equal_values_rank_alike(servo.commanded(servo.geometric(angle)), angle);
}

proof fn lemma_converts(servo: ServoMapping, to: Real, from: Real, angle: Real, t: int, f: int, a: int)
    requires
        servo.direction == 1 || servo.direction == -1,
        to.is_number(t),
        from.is_number(f),
        angle.is_number(a),
        -10_000_000 <= t <= 10_000_000,
        -10_000_000 <= f <= 10_000_000,
        -10_000_000 <= a <= 10_000_000,
    ensures
        to.plus(Real::from_whole(servo.direction as int).times(angle.minus(from))).is_number(
            if servo.direction == 1 {
                t + (a - f)
            } else {
                t - (a - f)
            },
        ),
{
    law_whole_numbers_are_added_exactly(angle, from, a, f);
    let apart = angle.minus(from);
    law_one_leaves_a_number_alone(apart);
    law_whole_numbers_are_added_exactly(to, apart, t, a - f);
}

/// A servo that turns the same way as the arm is never commanded back for a larger arm
/// angle, and one that opposes it never on.
pub proof fn law_servos_follow_the_arm(servo: ServoMapping, low: Real, high: Real)
    requires
        low.at_most(high),
        low.finite(),
        high.finite(),
        servo.center_deg.value.finite(),
        servo.offset_deg.value.finite(),
    ensures
        servo.direction == 1 ==> servo.commanded(low).at_most(servo.commanded(high)),
        servo.direction == -1 ==> servo.commanded(high).at_most(servo.commanded(low)),
        servo.direction == 1 ==> servo.geometric(low).at_most(servo.geometric(high)),
        servo.direction == -1 ==> servo.geometric(high).at_most(servo.geometric(low)),
{
    lemma_follows(servo, servo.center_deg.value, servo.offset_deg.value, low, high);
    lemma_follows(servo, servo.offset_deg.value, servo.center_deg.value, low, high);
}

proof fn lemma_follows(servo: ServoMapping, to: Real, from: Real, low: Real, high: Real)
    requires
        low.at_most(high),
        low.finite(),
        high.finite(),
        to.finite(),
        from.finite(),
    ensures
        servo.direction == 1 ==> to.plus(
            Real::from_whole(servo.direction as int).times(low.minus(from)),
        ).at_most(to.plus(Real::from_whole(servo.direction as int).times(high.minus(from)))),
        servo.direction == -1 ==> to.plus(
            Real::from_whole(servo.direction as int).times(high.minus(from)),
        ).at_most(to.plus(Real::from_whole(servo.direction as int).times(low.minus(from)))),
{
    let (a, b) = (low.minus(from), high.minus(from));
    law_finite_numbers_add_up(low, from.opposite());
    law_finite_numbers_add_up(high, from.opposite());
    law_sums_keep_order(low, high, from.opposite(), from.opposite());
    law_one_leaves_a_number_alone(a);
    law_one_leaves_a_number_alone(b);
    law_finite_numbers_add_up(to, a);
    law_finite_numbers_add_up(to, b);
    law_finite_numbers_add_up(to, a.opposite());
    law_finite_numbers_add_up(to, b.opposite());
    law_sums_keep_order(to, to, a, b);
    law_sums_keep_order(to, to, b.opposite(), a.opposite());
}

}
