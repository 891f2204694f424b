//! The reference catalog: one authored challenge, and generated items that span
//! the difficulty scale.

use crate::cutter::ProgrammingMode;
use crate::meta::{CalibrationState, ChallengeMeta, ItemParameters, MetaView, SkillDimension};
use crate::number::Real;
use vstd::prelude::*;

verus! {

/// Seed of the first search for a generated item; each later one adds one.
pub const FIRST_SEARCH_SEED: u64 = 40;

/// Parameter vectors tried per generated item.
pub const SEARCH_ATTEMPTS: u32 = 48;

/// The difficulties that generated items are searched for: minus one, zero and
/// one.
pub fn search_targets() -> (r: [Real; 3])
    ensures
        r@ == seq![
            Real { bits: 0xbff0_0000_0000_0000 },
            Real { bits: 0 },
            Real { bits: 0x3ff0_0000_0000_0000 },
        ],
{
    [Real { bits: 0xbff0_0000_0000_0000 }, Real::zero(), Real::one()]
}

/// The metadata of the authored challenge. It is the one with a certified Cutter
/// Grid profile; the arm itself cannot run it.
pub open spec fn authored_meta() -> MetaView {
    MetaView {
        version: 1,
        irt: ItemParameters {
            discrimination: Real { bits: 0x3ff3_3333_3333_3333 },
            difficulty: Real { bits: 0 },
            guessing: Real { bits: 0 },
        },
        calibration: CalibrationState::Calibrated,
        response_count: 250,
        dimensions: seq![SkillDimension::Kinematics, SkillDimension::Precision],
        mastery_threshold: Real { bits: 0x3fe0_0000_0000_0000 },
        generator: None,
        hardware_compatible: false,
        programming_modes: seq![ProgrammingMode::Servo, ProgrammingMode::CutterGrid],
    }
}

/// The metadata of the authored challenge.
pub fn shipped_meta() -> (r: ChallengeMeta)
    ensures
        r@ == authored_meta(),
{
    let mut dimensions: Vec<SkillDimension> = Vec::new();
    dimensions.push(SkillDimension::Kinematics);
    dimensions.push(SkillDimension::Precision);
    assert(dimensions@ =~= seq![SkillDimension::Kinematics, SkillDimension::Precision]);
    let mut modes: Vec<ProgrammingMode> = Vec::new();
    modes.push(ProgrammingMode::Servo);
    modes.push(ProgrammingMode::CutterGrid);
    assert(modes@ =~= seq![ProgrammingMode::Servo, ProgrammingMode::CutterGrid]);
    ChallengeMeta {
        version: 1,
        irt: ItemParameters {
            discrimination: Real { bits: 0x3ff3_3333_3333_3333 },
            difficulty: Real::zero(),
            guessing: Real::zero(),
        },
        calibration: CalibrationState::Calibrated,
        response_count: 250,
        dimensions,
        mastery_threshold: Real::half(),
        generator: None,
        hardware_compatible: false,
        programming_modes: modes,
    }
}

/// Promote a generated item, to stand in for one that has already accumulated
/// responses: an adaptive session refuses items straight out of the generator.
pub fn promoted(meta: ChallengeMeta) -> (r: ChallengeMeta)
    ensures
        r == (ChallengeMeta {
            calibration: CalibrationState::Online,
            response_count: 50,
            ..meta
        }),
{
    ChallengeMeta {
        version: meta.version,
        irt: meta.irt,
        calibration: CalibrationState::Online,
        response_count: 50,
        dimensions: meta.dimensions,
        mastery_threshold: meta.mastery_threshold,
        generator: meta.generator,
        hardware_compatible: meta.hardware_compatible,
        programming_modes: meta.programming_modes,
    }
}

/// Both the authored challenge and promoted items may carry a measurement.
pub proof fn law_seeded_items_measure(meta: ChallengeMeta)
    ensures
        authored_meta().calibration.measures(),
        (ChallengeMeta {
            calibration: CalibrationState::Online,
            response_count: 50,
            ..meta
        })@.calibration.measures(),
{
}


/// The authored challenge may be played in both modes and is not for the hardware; it stands at
/// difficulty zero, cannot be guessed, has been answered often, and counts as mastered from a half
/// of the score.
pub proof fn law_the_authored_challenge()
    ensures
        authored_meta().version == 1,
        authored_meta().programming_modes.contains(ProgrammingMode::Servo),
        authored_meta().programming_modes.contains(ProgrammingMode::CutterGrid),
        !authored_meta().hardware_compatible,
        authored_meta().generator is None,
        authored_meta().calibration is Calibrated,
        authored_meta().response_count == 250,
        authored_meta().irt.difficulty.bits == 0,
        authored_meta().irt.guessing.bits == 0,
        authored_meta().irt.discrimination.bits == 0x3ff3_3333_3333_3333,
        authored_meta().mastery_threshold.bits == 0x3fe0_0000_0000_0000,
        authored_meta().dimensions == seq![SkillDimension::Kinematics, SkillDimension::Precision],
{
    assert(authored_meta().programming_modes[0] == ProgrammingMode::Servo);
    assert(authored_meta().programming_modes[1] == ProgrammingMode::CutterGrid);
}

}
