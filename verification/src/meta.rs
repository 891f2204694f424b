//! Item metadata: response-model parameters, calibration state and skill
//! dimensions.

use crate::cutter::ProgrammingMode;
use crate::domain::ChallengeDefinition;
use crate::number::Real;
use vstd::prelude::*;

verus! {

/// Stable identifier of a bank item.
pub type ItemId = String;

/// Response-model item parameters.
#[derive(Clone, Copy, Debug, PartialEq, Eq, Structural)]
pub struct ItemParameters {
    /// How sharply the item separates ability levels.
    pub discrimination: Real,
    /// Difficulty on the logit scale, always the solo-mode value.
    pub difficulty: Real,
    /// Chance of success by guessing. Zero in practice.
    pub guessing: Real,
}

impl ItemParameters {
    /// Parameters of an item nobody has attempted: the predicted difficulty,
    /// unit discrimination, no guessing.
    pub open spec fn unattempted(difficulty: Real) -> ItemParameters {
        ItemParameters {
            discrimination: Real { bits: 0x3ff0_0000_0000_0000 },
            difficulty,
            guessing: Real { bits: 0 },
        }
    }

    /// A freshly generated item: predicted difficulty, neutral discrimination.
    pub fn provisional(difficulty: Real) -> (r: Self)
        ensures
            r == ItemParameters::unattempted(difficulty),
    {
        ItemParameters { discrimination: Real::one(), difficulty, guessing: Real::zero() }
    }
}

/// How much response data stands behind an item's parameters.
#[derive(Clone, Copy, Debug, PartialEq, Eq, Structural)]
pub enum CalibrationState {
    /// Difficulty predicted by the feature model; no responses yet.
    Provisional,
    /// Enough responses to refit difficulty incrementally.
    Online,
    /// Batch-calibrated and stable.
    Calibrated,
    /// Withdrawn: drifted, superseded, or pathological.
    Retired,
}

impl CalibrationState {
    /// The states whose items may carry a measurement.
    pub open spec fn measures(self) -> bool {
        self is Online || self is Calibrated
    }

    /// The states whose items may be handed out.
    pub open spec fn live(self) -> bool {
        !(self is Retired)
    }

    /// Whether this item may be served by the adaptive (measurement) bank.
    pub fn usable_for_measurement(self) -> (r: bool)
        ensures
            r == self.measures(),
    {
        matches!(self, CalibrationState::Online | CalibrationState::Calibrated)
    }

    /// Whether this item may be served at all.
    pub fn servable(self) -> (r: bool)
        ensures
            r == self.live(),
    {
        !matches!(self, CalibrationState::Retired)
    }
}

/// Whatever may carry a measurement may also be handed out.
pub proof fn law_measurement_items_are_servable(state: CalibrationState)
    ensures
        state.measures() ==> state.live(),
{
}

/// Facets of robot-programming proficiency an item exercises.
#[derive(Clone, Copy, Debug, PartialEq, Eq, PartialOrd, Ord, Structural)]
pub enum SkillDimension {
    /// Reasoning about joint angles and reach.
    Kinematics,
    /// Ordering commands correctly.
    Sequencing,
    /// Using repetition to stay within budget.
    Iteration,
    /// Hitting a tight target shape.
    Precision,
    /// Keeping clear of the head.
    Safety,
}

impl SkillDimension {
    /// Stable key of a dimension.
    pub open spec fn spelling(self) -> Seq<char> {
        match self {
            SkillDimension::Kinematics => "kinematics"@,
            SkillDimension::Sequencing => "sequencing"@,
            SkillDimension::Iteration => "iteration"@,
            SkillDimension::Precision => "precision"@,
            SkillDimension::Safety => "safety"@,
        }
    }

    /// Every dimension, in a stable order.
    pub fn all() -> (r: [SkillDimension; 5])
        ensures
            r@ == seq![
                SkillDimension::Kinematics,
                SkillDimension::Sequencing,
                SkillDimension::Iteration,
                SkillDimension::Precision,
                SkillDimension::Safety,
            ],
    {
        [
            SkillDimension::Kinematics,
            SkillDimension::Sequencing,
            SkillDimension::Iteration,
            SkillDimension::Precision,
            SkillDimension::Safety,
        ]
    }

    /// Stable key, used for per-type counts and for tags.
    pub fn as_str(self) -> (r: &'static str)
        ensures
            r@ == self.spelling(),
    {
        match self {
            SkillDimension::Kinematics => "kinematics",
            SkillDimension::Sequencing => "sequencing",
            SkillDimension::Iteration => "iteration",
            SkillDimension::Precision => "precision",
            SkillDimension::Safety => "safety",
        }
    }
}

/// One named parameter of a generated item.
#[derive(Clone, Debug, PartialEq, Eq)]
pub struct ParamValue {
    /// Parameter name.
    pub name: String,
    /// Value.
    pub value: Real,
}

/// A concrete assignment of family parameters.
pub type ParamVector = Vec<ParamValue>;

/// The names and values of a parameter vector.
pub open spec fn params_view(params: Seq<ParamValue>) -> Seq<(Seq<char>, Real)> {
    Seq::new(params.len(), |i: int| (params[i].name@, params[i].value))
}

/// Copy a parameter vector.
pub fn copy_params(params: &ParamVector) -> (r: ParamVector)
    ensures
        params_view(r@) == params_view(params@),
{
    let mut out: ParamVector = Vec::new();
    for i in 0..params.len()
        invariant
            params_view(out@) == params_view(params@.take(i as int)),
    {
        let ghost before = out@;
        out.push(ParamValue { name: params[i].name.clone(), value: params[i].value });
        assert(params_view(out@) =~= params_view(before).push((params@[i as int].name@, params@[i as int].value)));
        assert(params_view(params@.take(i + 1)) =~= params_view(params@.take(i as int)).push(
            (params@[i as int].name@, params@[i as int].value),
        ));
    }
    assert(params@.take(params@.len() as int) =~= params@);
    out
}

/// Where a generated item came from.
///
/// Generation is deterministic, so these four values reproduce the challenge.
#[derive(Debug, PartialEq, Eq)]
pub struct GeneratorProvenance {
    /// Item family template.
    pub family_id: String,
    /// Generator version; a bump re-enters calibration.
    pub version: String,
    /// Seed handed to the generator.
    pub seed: u64,
    /// Parameter vector.
    pub params: ParamVector,
}

/// Where a generated item came from, by value.
pub struct ProvenanceView {
    /// Item family template.
    pub family_id: Seq<char>,
    /// Generator version.
    pub version: Seq<char>,
    /// Seed handed to the generator.
    pub seed: u64,
    /// Parameter vector.
    pub params: Seq<(Seq<char>, Real)>,
}

impl View for GeneratorProvenance {
    type V = ProvenanceView;

    open spec fn view(&self) -> ProvenanceView {
        ProvenanceView {
            family_id: self.family_id@,
            version: self.version@,
            seed: self.seed,
            params: params_view(self.params@),
        }
    }
}

impl Clone for GeneratorProvenance {
    fn clone(&self) -> (r: Self)
        ensures
            r@ == self@,
    {
        GeneratorProvenance {
            family_id: self.family_id.clone(),
            version: self.version.clone(),
            seed: self.seed,
            params: copy_params(&self.params),
        }
    }
}

/// Psychometric metadata attached to a challenge.
#[derive(Debug, PartialEq, Eq)]
pub struct ChallengeMeta {
    /// Immutable once served. Recalibration mints a new version so historical
    /// scores never move.
    pub version: u32,
    /// Solo-scale item parameters.
    pub irt: ItemParameters,
    /// Calibration lifecycle stage.
    pub calibration: CalibrationState,
    /// Responses observed for this item version.
    pub response_count: u32,
    /// Skill facets this item exercises.
    pub dimensions: Vec<SkillDimension>,
    /// Normalized final score above which the learner is judged to have
    /// mastered the item.
    pub mastery_threshold: Real,
    /// Provenance when generated from an item family.
    pub generator: Option<GeneratorProvenance>,
    /// Whether the physical arm can actually run this challenge.
    pub hardware_compatible: bool,
    /// Editors the challenge can be played in.
    pub programming_modes: Vec<ProgrammingMode>,
}

/// Psychometric metadata, by value.
pub struct MetaView {
    /// Version.
    pub version: u32,
    /// Item parameters.
    pub irt: ItemParameters,
    /// Calibration lifecycle stage.
    pub calibration: CalibrationState,
    /// Responses observed.
    pub response_count: u32,
    /// Skill facets.
    pub dimensions: Seq<SkillDimension>,
    /// Mastery threshold.
    pub mastery_threshold: Real,
    /// Provenance when generated.
    pub generator: Option<ProvenanceView>,
    /// Whether the physical arm can run it.
    pub hardware_compatible: bool,
    /// Editors it can be played in.
    pub programming_modes: Seq<ProgrammingMode>,
}

impl View for ChallengeMeta {
    type V = MetaView;

    open spec fn view(&self) -> MetaView {
        MetaView {
            version: self.version,
            irt: self.irt,
            calibration: self.calibration,
            response_count: self.response_count,
            dimensions: self.dimensions@,
            mastery_threshold: self.mastery_threshold,
            generator: match self.generator {
                Some(provenance) => Some(provenance@),
                None => None,
            },
            hardware_compatible: self.hardware_compatible,
            programming_modes: self.programming_modes@,
        }
    }
}

/// Copy a list of skill dimensions.
pub fn copy_dimensions(dimensions: &Vec<SkillDimension>) -> (r: Vec<SkillDimension>)
    ensures
        r@ == dimensions@,
{
    let mut out: Vec<SkillDimension> = Vec::new();
    for i in 0..dimensions.len()
        invariant
            out@ == dimensions@.take(i as int),
    {
        out.push(dimensions[i]);
    }
    out
}

/// Copy a list of programming modes.
pub fn copy_modes(modes: &Vec<ProgrammingMode>) -> (r: Vec<ProgrammingMode>)
    ensures
        r@ == modes@,
{
    let mut out: Vec<ProgrammingMode> = Vec::new();
    for i in 0..modes.len()
        invariant
            out@ == modes@.take(i as int),
    {
        out.push(modes[i]);
    }
    out
}

impl Clone for ChallengeMeta {
    fn clone(&self) -> (r: Self)
        ensures
            r@ == self@,
    {
        let generator = match &self.generator {
            Some(provenance) => Some(provenance.clone()),
            None => None,
        };
        ChallengeMeta {
            version: self.version,
            irt: self.irt,
            calibration: self.calibration,
            response_count: self.response_count,
            dimensions: copy_dimensions(&self.dimensions),
            mastery_threshold: self.mastery_threshold,
            generator,
            hardware_compatible: self.hardware_compatible,
            programming_modes: copy_modes(&self.programming_modes),
        }
    }
}

impl ChallengeMeta {
    /// Metadata for a brand-new generated item, playable with servo programs.
    pub fn provisional(version: u32, predicted_difficulty: Real) -> (r: Self)
        ensures
            r@ == (MetaView {
                version,
                irt: ItemParameters::unattempted(predicted_difficulty),
                calibration: CalibrationState::Provisional,
                response_count: 0,
                dimensions: Seq::empty(),
                mastery_threshold: Real { bits: 0x3fe0_0000_0000_0000 },
                generator: None,
                hardware_compatible: true,
                programming_modes: seq![ProgrammingMode::Servo],
            }),
    {
        let mut modes: Vec<ProgrammingMode> = Vec::new();
        modes.push(ProgrammingMode::Servo);
        assert(modes@ =~= seq![ProgrammingMode::Servo]);
        ChallengeMeta {
            version,
            irt: ItemParameters::provisional(predicted_difficulty),
            calibration: CalibrationState::Provisional,
            response_count: 0,
            dimensions: Vec::new(),
            mastery_threshold: Real::half(),
            generator: None,
            hardware_compatible: true,
            programming_modes: modes,
        }
    }

    /// Whether the challenge can be played in `mode`.
    pub fn supports(&self, mode: ProgrammingMode) -> (r: bool)
        ensures
            r == self@.programming_modes.contains(mode),
    {
        for i in 0..self.programming_modes.len()
            invariant
                forall|j: int| 0 <= j < i ==> self.programming_modes@[j] != mode,
        {
            if self.programming_modes[i] == mode {
                return true;
            }
        }
        false
    }
}

/// A challenge plus its psychometric metadata, as served by the catalog.
#[derive(Clone, Debug, PartialEq, Eq)]
pub struct ChallengeDefinitionDto {
    /// The challenge.
    pub challenge: ChallengeDefinition,
    /// Additive metadata.
    pub meta: ChallengeMeta,
}

/// Only items that responses have brought online or calibrated measure; only withdrawn ones
/// are not handed out.
pub proof fn law_states_that_measure()
    ensures
        !CalibrationState::Provisional.measures(),
        CalibrationState::Online.measures(),
        CalibrationState::Calibrated.measures(),
        !CalibrationState::Retired.measures(),
        CalibrationState::Provisional.live(),
        CalibrationState::Online.live(),
        CalibrationState::Calibrated.live(),
        !CalibrationState::Retired.live(),
{
}

}
