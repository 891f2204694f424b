//! Automatic item generation.
//!
//! Generation is deterministic: an item is identified by its family, the
//! family's version, a seed and a parameter vector, and the same four reproduce
//! the same challenge.

use crate::cutter::ProgrammingMode;
use crate::domain::{ChallengeDefinition, HairstyleDefinition, JointConfig, VoxelCoord};
use crate::features::ChallengeFeatures;
use crate::meta::{
    copy_dimensions, copy_params, params_view, CalibrationState, ChallengeDefinitionDto,
    ChallengeMeta, GeneratorProvenance, ItemParameters, MetaView, ParamVector, ProvenanceView,
    SkillDimension,
};
use crate::number::Real;
use crate::starter::{find_joint, has_joint, is_joint, ReferenceRun, SWEEP_JOINT, TURN};
use crate::text::{hex_text, push_hex, same};
use crate::voxels::{common, in_order, keep_common, law_common_cells_are_in_both};
use vstd::prelude::*;

verus! {

/// A tunable dimension of an item family.
#[derive(Clone, Debug, PartialEq, Eq)]
pub struct ParamSpec {
    /// Parameter name.
    pub name: String,
    /// Inclusive lower bound.
    pub min: Real,
    /// Inclusive upper bound.
    pub max: Real,
}

impl ParamSpec {
    /// Define a parameter.
    pub fn new(name: &str, min: Real, max: Real) -> (r: Self)
        ensures
            r.name@ == name@,
            r.min == min,
            r.max == max,
    {
        ParamSpec { name: name.to_owned(), min, max }
    }
}

/// A template from which items are generated.
#[derive(Clone, Debug, PartialEq, Eq)]
pub struct ItemFamily {
    /// Stable family identifier.
    pub id: String,
    /// Generator version. A bump invalidates calibration for every instance,
    /// because the same parameters no longer mean the same challenge.
    pub version: String,
    /// Skill facets that instances of this family exercise.
    pub dimensions: Vec<SkillDimension>,
    /// Tunable parameters.
    pub params: Vec<ParamSpec>,
    /// Whether instances can run on the physical arm.
    pub hardware_compatible: bool,
}

/// Why generation failed.
#[derive(Clone, Debug, PartialEq, Eq)]
pub enum GenError {
    /// A required parameter was absent from the vector.
    MissingParam(String),
    /// The parameters produced a challenge with no hair at all.
    EmptyHairstyle,
    /// The parameters produced a challenge where nothing needs removing, so
    /// there is no task.
    NothingToRemove,
    /// No safe reference solution exists, so the trim that the parameters
    /// describe is one the arm cannot perform.
    UnreachableSector,
    /// The reference cuts so little that finishing barely beats doing nothing.
    MarginTooSmall,
    /// The prototype challenge is unusable as a template.
    BadPrototype(&'static str),
}

impl GenError {
    /// A parameter of this name is missing.
    pub open spec fn is_missing(self, name: Seq<char>) -> bool {
        self matches GenError::MissingParam(missing) && missing@ == name
    }

    /// Whether two failures are the same, with the same words.
    pub open spec fn agrees(self, other: GenError) -> bool {
        match (self, other) {
            (GenError::MissingParam(a), GenError::MissingParam(b)) => a@ == b@,
            (GenError::BadPrototype(a), GenError::BadPrototype(b)) => a@ == b@,
            (GenError::EmptyHairstyle, GenError::EmptyHairstyle) => true,
            (GenError::NothingToRemove, GenError::NothingToRemove) => true,
            (GenError::UnreachableSector, GenError::UnreachableSector) => true,
            (GenError::MarginTooSmall, GenError::MarginTooSmall) => true,
            _ => false,
        }
    }

    /// The failure in words.
    pub open spec fn sentence(self) -> Seq<char> {
        match self {
            GenError::MissingParam(name) => "missing parameter `"@ + name@ + "`"@,
            GenError::EmptyHairstyle => "generated hairstyle is empty"@,
            GenError::NothingToRemove => "generated target equals the initial hairstyle"@,
            GenError::UnreachableSector => "no safe reference solution trims the requested sector"@,
            GenError::MarginTooSmall => "finishing scores too close to doing nothing"@,
            GenError::BadPrototype(reason) => "unusable prototype: "@ + reason@,
        }
    }

    /// The failure in words.
    pub fn message(&self) -> (r: String)
        ensures
            r@ == self.sentence(),
    {
        match self {
            GenError::MissingParam(name) => {
                let mut out: String = "missing parameter `".to_owned();
                out.append(name.as_str());
                out.append("`");
                out
            },
            GenError::EmptyHairstyle => "generated hairstyle is empty".to_owned(),
            GenError::NothingToRemove => "generated target equals the initial hairstyle".to_owned(),
            GenError::UnreachableSector =>
                "no safe reference solution trims the requested sector".to_owned(),
            GenError::MarginTooSmall => "finishing scores too close to doing nothing".to_owned(),
            GenError::BadPrototype(reason) => {
                let mut out: String = "unusable prototype: ".to_owned();
                out.append(*reason);
                out
            },
        }
    }
}

/// The value of a parameter; of several, the last one given.
pub open spec fn param_of(params: Seq<(Seq<char>, Real)>, name: Seq<char>) -> Option<Real>
    decreases params.len(),
{
    if params.len() == 0 {
        None
    } else if params.last().0 == name {
        Some(params.last().1)
    } else {
        param_of(params.drop_last(), name)
    }
}

/// The value of a parameter.
pub fn param(params: &ParamVector, name: &str) -> (r: Result<Real, GenError>)
    ensures
        match (r, param_of(params_view(params@), name@)) {
            (Ok(value), Some(found)) => value == found,
            (Err(error), None) => error.is_missing(name@),
            _ => false,
        },
{
    let ghost all = params_view(params@);
    let mut i: usize = params.len();
    assert(all.take(i as int) =~= all);
    while i > 0
        invariant
            i <= params@.len(),
            all == params_view(params@),
            param_of(all.take(i as int), name@) == param_of(all, name@),
        decreases i,
    {
        i = i - 1;
        assert(all.take(i + 1).drop_last() =~= all.take(i as int));
        assert(all.take(i + 1).last() == all[i as int]);
        if same(params[i].name.as_str(), name) {
            return Ok(params[i].value);
        }
    }
    Err(GenError::MissingParam(name.to_owned()))
}

/// The smaller of two numbers; where one is no number, the other.
pub open spec fn smaller(a: Real, b: Real) -> Real {
    if a.not_a_number() {
        b
    } else if b.below(a) {
        b
    } else {
        a
    }
}

fn least(a: Real, b: Real) -> (r: Real)
    ensures
        r == smaller(a, b),
{
    if a.is_nan() {
        b
    } else if b.lt(a) {
        b
    } else {
        a
    }
}

/// The whole number of layers nearest to a depth; none of a negative one.
pub open spec fn layers(depth: Real) -> u32 {
    if depth.not_a_number() || depth.is_negative() {
        0
    } else if depth.rounded() > u32::MAX {
        u32::MAX
    } else {
        depth.rounded() as u32
    }
}

fn whole_layers(depth: Real) -> (r: u32)
    ensures
        r == layers(depth),
{
    if depth.is_nan() || depth.bits >= 0x8000_0000_0000_0000 {
        return 0;
    }
    let rounded: u64 = depth.round();
    if rounded > 0xffff_ffff {
        u32::MAX
    } else {
        rounded as u32
    }
}

/// What the parameters of a cap trim ask for.
#[derive(Clone, Copy, Debug, PartialEq, Eq, Structural)]
pub struct TrimPlan {
    /// Thickness of the cap, in voxel layers.
    pub cap_thickness: Real,
    /// Depth of the trim, in voxel layers: no deeper than the cap.
    pub trim_depth: Real,
    /// Angular width of the trimmed sector, as a fraction of a half turn.
    pub region_span: Real,
    /// Orientation of the trimmed sector, as a fraction of a full turn.
    pub region_turn: Real,
}

/// A cap trim's parameters, by name.
pub open spec fn plan_of(params: Seq<(Seq<char>, Real)>) -> Result<TrimPlan, Seq<char>> {
    match param_of(params, "cap_thickness"@) {
        None => Err("cap_thickness"@),
        Some(cap_thickness) => match param_of(params, "trim_depth"@) {
            None => Err("trim_depth"@),
            Some(depth) => match param_of(params, "region_span"@) {
                None => Err("region_span"@),
                Some(region_span) => match param_of(params, "region_turn"@) {
                    None => Err("region_turn"@),
                    Some(region_turn) => Ok(
                        TrimPlan {
                            cap_thickness,
                            trim_depth: smaller(depth, cap_thickness),
                            region_span,
                            region_turn,
                        },
                    ),
                },
            },
        },
    }
}

/// Whether a prototype's lattice and head have a size.
pub open spec fn usable_prototype(prototype: ChallengeDefinition) -> bool {
    let zero = Real { bits: 0 };
    let config = prototype.voxel_config;
    &&& !config.size.value.at_most(zero)
    &&& !config.head_scale@[0].value.at_most(zero)
    &&& !config.head_scale@[1].value.at_most(zero)
    &&& !config.head_scale@[2].value.at_most(zero)
}

/// The identity of a generated item.
pub open spec fn item_id(family: Seq<char>, seed: u64) -> Seq<char> {
    family + "-"@ + hex_text(seed as nat, 16)
}

/// Whether a challenge is the item of a family and a seed over a shell of hair:
/// its target and its starter are given, and everything else is the prototype's.
pub open spec fn is_item(
    challenge: ChallengeDefinition,
    prototype: ChallengeDefinition,
    family: Seq<char>,
    seed: u64,
    shell: Seq<VoxelCoord>,
    name: Seq<char>,
    description: Seq<char>,
    target: Seq<VoxelCoord>,
    starter_workspace: Option<String>,
) -> bool {
    &&& challenge.id@ == item_id(family, seed)
    &&& challenge.name@ == name
    &&& challenge.description@ == description
    &&& challenge.robot_config == prototype.robot_config
    &&& challenge.voxel_config == prototype.voxel_config
    &&& challenge.initial_hair.id@ == item_id(family, seed) + "-initial"@
    &&& challenge.initial_hair.name@ == "Generated Cap"@
    &&& challenge.initial_hair.voxels@ == shell
    &&& challenge.target_hair.id@ == item_id(family, seed) + "-target"@
    &&& challenge.target_hair.name@ == "Trimmed Cap"@
    &&& challenge.target_hair.voxels@ == target
    &&& challenge.allowed_blocks == prototype.allowed_blocks
    &&& challenge.starter_workspace == starter_workspace
    &&& challenge.scoring == prototype.scoring
}

/// Whether a challenge is an outline, its target still a placeholder: the hair it
/// starts with.
pub open spec fn is_outline(
    challenge: ChallengeDefinition,
    prototype: ChallengeDefinition,
    family: Seq<char>,
    seed: u64,
    shell: Seq<VoxelCoord>,
    name: Seq<char>,
    description: Seq<char>,
) -> bool {
    is_item(challenge, prototype, family, seed, shell, name, description, shell, None)
}

/// Whether a reference that left `standing` of `initial` cells removes too little
/// to be worth playing: less than a fiftieth.
pub open spec fn margin_too_small(initial: nat, standing: nat) -> bool {
    (initial - standing) * 50 < initial
}

/// Why generation fails on parameters and on what was measured and replayed for
/// them; nothing when it succeeds. Earlier reasons win over later ones.
pub open spec fn generation_failure(
    plan: TrimPlan,
    usable: bool,
    shell: nat,
    standing: Option<nat>,
    solved: bool,
) -> Option<GenError> {
    if !usable {
        Some(GenError::BadPrototype("voxel size and head scale must be positive"))
    } else if shell == 0 {
        Some(GenError::EmptyHairstyle)
    } else if layers(plan.trim_depth) == 0 || plan.region_span.below(Real { bits: 0 }) {
        Some(GenError::NothingToRemove)
    } else {
        match standing {
            None => Some(GenError::UnreachableSector),
            Some(left) => if left >= shell {
                Some(GenError::UnreachableSector)
            } else if margin_too_small(shell, left) {
                Some(GenError::MarginTooSmall)
            } else if !solved {
                Some(GenError::UnreachableSector)
            } else {
                None
            },
        }
    }
}

/// What a reference leaves standing of the hair that is there from the start.
pub open spec fn left_of(hair: Seq<VoxelCoord>, run: ReferenceRun) -> Seq<VoxelCoord> {
    common(run.standing(), hair.to_set())
}

/// How much of the hair a reference leaves standing, where there is one.
pub open spec fn left_standing(hair: Seq<VoxelCoord>, reference: Option<&ReferenceRun>) -> Option<nat> {
    match reference {
        Some(run) => Some(left_of(hair, *run).len()),
        None => None,
    }
}

/// Whether a list of cells is part of another one, in order and no cell twice.
pub open spec fn is_part(cells: Seq<VoxelCoord>, whole: Seq<VoxelCoord>) -> bool {
    &&& in_order(cells)
    &&& cells.no_duplicates()
    &&& forall|i: int| 0 <= i < cells.len() ==> whole.contains(#[trigger] cells[i])
}

fn copy_cells(cells: &Vec<VoxelCoord>) -> (r: Vec<VoxelCoord>)
    ensures
        r@ == cells@,
{
    let mut out: Vec<VoxelCoord> = Vec::new();
    for i in 0..cells.len()
        invariant
            out@ == cells@.take(i as int),
    {
        out.push(cells[i]);
    }
    assert(out@ =~= cells@);
    out
}

/// Generates challenges that trim a cap of hair.
///
/// The initial hairstyle is an ellipsoidal shell over the head. The target is
/// whatever a reference solution leaves standing once it has swept that shell.
#[derive(Clone, Debug)]
pub struct CapTrimGenerator {
    /// The family of the generated items.
    pub family: ItemFamily,
    /// Supplies the arm, the lattice and the scoring. Only the hairstyles vary.
    pub prototype: ChallengeDefinition,
}

/// The parameters of the cap-trim family: name and bounds.
pub open spec fn cap_trim_params(turn_min: Real, turn_max: Real) -> Seq<(Seq<char>, Real, Real)> {
    let one = Real { bits: 0x3ff0_0000_0000_0000 };
    let three = Real { bits: 0x4008_0000_0000_0000 };
    let quarter = Real { bits: 0x3fd0_0000_0000_0000 };
    seq![
        ("cap_thickness"@, one, three),
        ("trim_depth"@, one, three),
        ("region_span"@, quarter, one),
        ("region_turn"@, turn_min, turn_max),
    ]
}

/// Whether turns are the sector orientations that some joints can reach: those of the
/// first that sweeps, as parts of a turn, or all of them without one.
pub open spec fn are_turns(turns: (Real, Real), joints: Seq<JointConfig>) -> bool {
    if has_joint(joints, SWEEP_JOINT@) {
        exists|i: int| #[trigger]
            is_joint(joints, SWEEP_JOINT@, i) && turns == (
                joints[i].max_angle_deg.value.opposite().over(Real { bits: TURN }),
                joints[i].min_angle_deg.value.opposite().over(Real { bits: TURN }),
            )
    } else {
        turns == (Real { bits: 0 }, Real { bits: 0x3ff0_0000_0000_0000 })
    }
}

/// Parameter definitions, by value.
pub open spec fn specs_view(specs: Seq<ParamSpec>) -> Seq<(Seq<char>, Real, Real)> {
    Seq::new(specs.len(), |i: int| (specs[i].name@, specs[i].min, specs[i].max))
}

impl CapTrimGenerator {
    /// Build a generator around a prototype challenge. Sectors are turned to where its
    /// arm can reach.
    pub fn new(prototype: ChallengeDefinition) -> (r: Self)
        ensures
            r.prototype == prototype,
            r.family.id@ == "cap-trim"@,
            r.family.version@ == "3"@,
            r.family.dimensions@ == seq![
                SkillDimension::Kinematics,
                SkillDimension::Precision,
                SkillDimension::Safety,
            ],
            exists|turns: (Real, Real)| #[trigger]
                are_turns(turns, prototype.robot_config.joints@) && specs_view(r.family.params@)
                    == cap_trim_params(turns.0, turns.1),
            r.family.hardware_compatible,
    {
        let (turn_min, turn_max) = Self::reachable_turns(&prototype);
        let mut dimensions: Vec<SkillDimension> = Vec::new();
        dimensions.push(SkillDimension::Kinematics);
        dimensions.push(SkillDimension::Precision);
        dimensions.push(SkillDimension::Safety);
        let three = Real { bits: 0x4008_0000_0000_0000 };
        let quarter = Real { bits: 0x3fd0_0000_0000_0000 };
        let mut params: Vec<ParamSpec> = Vec::new();
        params.push(ParamSpec::new("cap_thickness", Real::one(), three));
        params.push(ParamSpec::new("trim_depth", Real::one(), three));
        params.push(ParamSpec::new("region_span", quarter, Real::one()));
        params.push(ParamSpec::new("region_turn", turn_min, turn_max));
        assert(specs_view(params@) =~= cap_trim_params(turn_min, turn_max));
        CapTrimGenerator {
            family: ItemFamily {
                id: "cap-trim".to_owned(),
                version: "3".to_owned(),
                dimensions,
                params,
                hardware_compatible: true,
            },
            prototype,
        }
    }

    /// The sector orientations that the arm of a prototype can reach: its travel seen from
    /// the other side. A whole turn for an arm without that joint, which there is nothing
    /// to reason from.
    pub fn reachable_turns(prototype: &ChallengeDefinition) -> (r: (Real, Real))
        ensures
            are_turns(r, prototype.robot_config.joints@),
    {
        let turn = Real { bits: TURN };
        match find_joint(prototype.robot_config.joints.as_slice(), SWEEP_JOINT) {
            Some(joint) => (
                joint.max_angle_deg.value.neg().divide(turn),
                joint.min_angle_deg.value.neg().divide(turn),
            ),
            None => (Real::zero(), Real::one()),
        }
    }

    /// How many sweeps the reference solution makes for these parameters. The
    /// trim cannot go deeper than the cap is thick.
    pub fn passes(params: &ParamVector) -> (r: Result<u32, GenError>)
        ensures
            ({
                let given = params_view(params@);
                match param_of(given, "cap_thickness"@) {
                    None => r matches Err(error) && error.is_missing("cap_thickness"@),
                    Some(cap) => match param_of(given, "trim_depth"@) {
                        None => r matches Err(error) && error.is_missing("trim_depth"@),
                        Some(depth) => r == Ok::<u32, GenError>(layers(smaller(depth, cap))),
                    },
                }
            }),
    {
        let cap_thickness = param(params, "cap_thickness")?;
        let trim_depth = param(params, "trim_depth")?;
        Ok(whole_layers(least(trim_depth, cap_thickness)))
    }

    /// Read a parameter vector, and refuse a prototype that cannot be a template.
    pub fn plan(&self, params: &ParamVector) -> (r: Result<TrimPlan, GenError>)
        ensures
            match plan_of(params_view(params@)) {
                Err(missing) => r matches Err(error) && error.is_missing(missing),
                Ok(plan) => if usable_prototype(self.prototype) {
                    r == Ok::<TrimPlan, GenError>(plan)
                } else {
                    r matches Err(GenError::BadPrototype(reason)) && reason@
                        == "voxel size and head scale must be positive"@
                },
            },
    {
        let cap_thickness = param(params, "cap_thickness")?;
        let trim_depth = least(param(params, "trim_depth")?, cap_thickness);
        let region_span = param(params, "region_span")?;
        let region_turn = param(params, "region_turn")?;
        let voxel = &self.prototype.voxel_config;
        let zero = Real::zero();
        if voxel.size.value.le(zero) || voxel.head_scale[0].value.le(zero)
            || voxel.head_scale[1].value.le(zero) || voxel.head_scale[2].value.le(zero) {
            return Err(GenError::BadPrototype("voxel size and head scale must be positive"));
        }
        Ok(TrimPlan { cap_thickness, trim_depth, region_span, region_turn })
    }

    /// Outline a challenge over a shell of hair: everything but its target. The
    /// hair that is there from the start stands in for it, since carving depends
    /// on the hair and the geometry, never on the target.
    ///
    /// A shell without a cell is no hairstyle, and a trim of no layers or across
    /// a negative width describes no cut. One across no width at all still shaves
    /// a thin line: a narrow task, and a legitimate one.
    pub fn outline(
        prototype: ChallengeDefinition,
        family_id: &str,
        seed: u64,
        plan: &TrimPlan,
        cells: Vec<VoxelCoord>,
        name: String,
        description: String,
    ) -> (r: Result<ChallengeDefinition, GenError>)
        ensures
            if cells@.len() == 0 {
                r == Err::<ChallengeDefinition, GenError>(GenError::EmptyHairstyle)
            } else if layers(plan.trim_depth) == 0 || plan.region_span.below(Real { bits: 0 }) {
                r == Err::<ChallengeDefinition, GenError>(GenError::NothingToRemove)
            } else {
                r matches Ok(challenge) && is_outline(
                    challenge,
                    prototype,
                    family_id@,
                    seed,
                    cells@,
                    name@,
                    description@,
                )
            },
    {
        if cells.len() == 0 {
            return Err(GenError::EmptyHairstyle);
        }
        let passes: u32 = whole_layers(plan.trim_depth);
        if passes == 0 || plan.region_span.lt(Real::zero()) {
            return Err(GenError::NothingToRemove);
        }
        let mut id: String = family_id.to_owned();
        id.append("-");
        push_hex(&mut id, seed, 16);
        let mut initial_id = id.clone();
        initial_id.append("-initial");
        let mut target_id = id.clone();
        target_id.append("-target");
        Ok(
            ChallengeDefinition {
                id,
                name,
                description,
                robot_config: prototype.robot_config,
                voxel_config: prototype.voxel_config,
                initial_hair: HairstyleDefinition {
                    id: initial_id,
                    name: "Generated Cap".to_owned(),
                    voxels: copy_cells(&cells),
                },
                target_hair: HairstyleDefinition {
                    id: target_id,
                    name: "Trimmed Cap".to_owned(),
                    voxels: cells,
                },
                allowed_blocks: prototype.allowed_blocks,
                starter_workspace: None,
                scoring: prototype.scoring,
            },
        )
    }

    /// Adopt what a reference leaves standing of the hair as the target.
    ///
    /// A reference that removes less than a fiftieth of the hair is refused:
    /// completion is an overlap of remaining hair, so finishing would score
    /// within two points of doing nothing, and responses would separate nobody.
    pub fn adopt(
        challenge: ChallengeDefinition,
        reference: Option<&ReferenceRun>,
        starter_workspace: Option<String>,
    ) -> (r: Result<ChallengeDefinition, GenError>)
        ensures
            ({
                let hair = challenge.initial_hair.voxels@;
                match reference {
                    None => r == Err::<ChallengeDefinition, GenError>(GenError::UnreachableSector),
                    Some(run) => if left_of(hair, *run).len() >= hair.len() {
                        r == Err::<ChallengeDefinition, GenError>(GenError::UnreachableSector)
                    } else if margin_too_small(hair.len(), left_of(hair, *run).len()) {
                        r == Err::<ChallengeDefinition, GenError>(GenError::MarginTooSmall)
                    } else {
                        r matches Ok(adopted) && adopted.target_hair.voxels@ == left_of(hair, *run)
                            && is_part(adopted.target_hair.voxels@, hair) && adopted == (ChallengeDefinition {
                            starter_workspace,
                            target_hair: HairstyleDefinition {
                                voxels: adopted.target_hair.voxels,
                                ..challenge.target_hair
                            },
                            ..challenge
                        })
                    },
                }
            }),
    {
        let run = match reference {
            Some(run) => run,
            None => {
                return Err(GenError::UnreachableSector);
            },
        };
        let initial: usize = challenge.initial_hair.voxels.len();
        let voxels = keep_common(run.remaining(), challenge.initial_hair.voxels.as_slice());
        if voxels.len() >= initial {
            return Err(GenError::UnreachableSector);
        }
        let removed: usize = initial - voxels.len();
        if (removed as u128) * 50 < initial as u128 {
            return Err(GenError::MarginTooSmall);
        }
        proof {
            let hair = challenge.initial_hair.voxels@;
            law_common_cells_are_in_both(run.standing(), hair.to_set());
            assert forall|i: int| 0 <= i < voxels@.len() implies hair.contains(#[trigger] voxels@[i]) by {
                assert(common(run.standing(), hair.to_set()).contains(voxels@[i]));
            }
        }
        Ok(
            ChallengeDefinition {
                id: challenge.id,
                name: challenge.name,
                description: challenge.description,
                robot_config: challenge.robot_config,
                voxel_config: challenge.voxel_config,
                initial_hair: challenge.initial_hair,
                target_hair: HairstyleDefinition {
                    id: challenge.target_hair.id,
                    name: challenge.target_hair.name,
                    voxels,
                },
                allowed_blocks: challenge.allowed_blocks,
                starter_workspace,
                scoring: challenge.scoring,
            },
        )
    }

    /// Keep a finished challenge only if a replay of its reference solved it:
    /// a disagreement between carving and scoring is caught here rather than by
    /// a learner who cannot finish.
    pub fn confirm(challenge: ChallengeDefinition, solved: bool) -> (r: Result<
        ChallengeDefinition,
        GenError,
    >)
        ensures
            r == if solved {
                Ok::<ChallengeDefinition, GenError>(challenge)
            } else {
                Err::<ChallengeDefinition, GenError>(GenError::UnreachableSector)
            },
    {
        if solved {
            Ok(challenge)
        } else {
            Err(GenError::UnreachableSector)
        }
    }

    /// Generate a challenge from a seed and a parameter vector.
    ///
    /// `shell` is the hair that the parameters measure out, `name` and
    /// `description` what they are called; `reference` is the solution that a
    /// search found over the outline, if any, `starter_workspace` what it shows,
    /// and `solved` whether a replay of it finished the challenge.
    pub fn generate(
        self,
        seed: u64,
        params: &ParamVector,
        shell: Vec<VoxelCoord>,
        name: String,
        description: String,
        reference: Option<&ReferenceRun>,
        starter_workspace: Option<String>,
        solved: bool,
    ) -> (r: Result<ChallengeDefinition, GenError>)
        ensures
            match plan_of(params_view(params@)) {
                Err(missing) => r matches Err(error) && error.is_missing(missing),
                Ok(plan) => match generation_failure(
                    plan,
                    usable_prototype(self.prototype),
                    shell@.len(),
                    left_standing(shell@, reference),
                    solved,
                ) {
                    Some(failure) => r matches Err(error) && error.agrees(failure),
                    None => r matches Ok(challenge) && reference is Some && is_item(
                        challenge,
                        self.prototype,
                        self.family.id@,
                        seed,
                        shell@,
                        name@,
                        description@,
                        left_of(shell@, *reference->0),
                        starter_workspace,
                    ) && is_part(challenge.target_hair.voxels@, challenge.initial_hair.voxels@),
                },
            },
    {
        let plan = self.plan(params)?;
        let outlined = Self::outline(
            self.prototype,
            self.family.id.as_str(),
            seed,
            &plan,
            shell,
            name,
            description,
        )?;
        let adopted = Self::adopt(outlined, reference, starter_workspace)?;
        Self::confirm(adopted, solved)
    }
}

/// What is generated is winnable and worth playing: a solution was replayed to
/// completion, its result is the target, and it removes at least a fiftieth of
/// the hair.
pub proof fn law_generated_items_are_winnable(
    plan: TrimPlan,
    usable: bool,
    shell: nat,
    standing: Option<nat>,
    solved: bool,
)
    requires
        generation_failure(plan, usable, shell, standing, solved) is None,
    ensures
        solved,
        standing matches Some(left) && left < shell && shell <= 50 * (shell - left),
        layers(plan.trim_depth) > 0,
        usable,
{
}

/// A reference that was replayed over the hair, and so leaves standing only what was
/// there, makes the target of all that it leaves standing.
pub proof fn law_the_target_is_what_the_reference_leaves(hair: Seq<VoxelCoord>, run: ReferenceRun)
    requires
        is_part(run.standing(), hair),
    ensures
        left_of(hair, run) == run.standing(),
{
    law_common_cells_are_in_both(run.standing(), hair.to_set());
    assert forall|i: int| 0 <= i < run.standing().len() implies hair.to_set().contains(
        #[trigger] run.standing()[i],
    ) by {
        assert(hair.contains(run.standing()[i]));
    }
}

/// A generated item with its predicted placement on the difficulty scale.
#[derive(Clone, Debug, PartialEq, Eq)]
pub struct GeneratedItem {
    /// The challenge plus metadata, ready to serve and to persist.
    pub dto: ChallengeDefinitionDto,
    /// Difficulty that the model predicted.
    pub predicted_difficulty: Real,
    /// Features that produced it, retained so the model can be refit later.
    pub features: ChallengeFeatures,
}

/// The metadata of a generated item. It is never calibrated: no one has
/// attempted it yet.
pub open spec fn generated_meta(
    family: ItemFamily,
    seed: u64,
    params: Seq<(Seq<char>, Real)>,
    predicted: Real,
) -> MetaView {
    MetaView {
        version: 1,
        irt: ItemParameters::unattempted(predicted),
        calibration: CalibrationState::Provisional,
        response_count: 0,
        dimensions: family.dimensions@,
        mastery_threshold: Real { bits: 0x3fe0_0000_0000_0000 },
        generator: Some(
            ProvenanceView { family_id: family.id@, version: family.version@, seed, params },
        ),
        hardware_compatible: family.hardware_compatible,
        programming_modes: seq![ProgrammingMode::Servo],
    }
}

/// Attach the metadata of a generated item to its challenge.
pub fn generate_item(
    family: &ItemFamily,
    challenge: ChallengeDefinition,
    seed: u64,
    params: &ParamVector,
    predicted: Real,
    features: ChallengeFeatures,
) -> (r: GeneratedItem)
    ensures
        r.dto.challenge == challenge,
        r.dto.meta@ == generated_meta(*family, seed, params_view(params@), predicted),
        r.predicted_difficulty == predicted,
        r.features == features,
{
    let mut modes: Vec<ProgrammingMode> = Vec::new();
    modes.push(ProgrammingMode::Servo);
    assert(modes@ =~= seq![ProgrammingMode::Servo]);
    GeneratedItem {
        dto: ChallengeDefinitionDto {
            challenge,
            meta: ChallengeMeta {
                version: 1,
                irt: ItemParameters::provisional(predicted),
                calibration: CalibrationState::Provisional,
                response_count: 0,
                dimensions: copy_dimensions(&family.dimensions),
                mastery_threshold: Real::half(),
                generator: Some(
                    GeneratorProvenance {
                        family_id: family.id.clone(),
                        version: family.version.clone(),
                        seed,
                        params: copy_params(params),
                    },
                ),
                hardware_compatible: family.hardware_compatible,
                programming_modes: modes,
            },
        },
        predicted_difficulty: predicted,
        features,
    }
}

/// The seed of an attempt of a search: distinct but reproducible.
pub open spec fn attempt_seed(seed: u64, attempt: u32) -> int {
    (seed * 0x9e37_79b9_7f4a_7c15 + attempt) % 0x1_0000_0000_0000_0000
}

/// The seed of an attempt of a search.
pub fn candidate_seed(seed: u64, attempt: u32) -> (r: u64)
    ensures
        r == attempt_seed(seed, attempt),
{
    let spread: u64 = seed.wrapping_mul(0x9e37_79b9_7f4a_7c15);
    let r: u64 = spread.wrapping_add(attempt as u64);
    proof {
        vstd::arithmetic::div_mod::lemma_add_mod_noop(
            seed * 0x9e37_79b9_7f4a_7c15,
            attempt as int,
            0x1_0000_0000_0000_0000,
        );
    }
    r
}

/// How many parameter vectors a search tries.
pub fn attempts_made(attempts: u32) -> (r: u32)
    ensures
        r == if attempts == 0 {
            1
        } else {
            attempts
        },
{
    if attempts == 0 {
        1
    } else {
        attempts
    }
}

/// The attempt that a search keeps: the first of those closest to the target.
/// Attempts that produced no item have no distance.
pub open spec fn closest_of(distances: Seq<Option<Real>>) -> Option<int>
    decreases distances.len(),
{
    if distances.len() == 0 {
        None
    } else {
        let before = closest_of(distances.drop_last());
        match distances.last() {
            None => before,
            Some(distance) => match before {
                None => Some(distances.len() - 1),
                Some(best) => if distance.below(distances[best]->0) {
                    Some(distances.len() - 1)
                } else {
                    before
                },
            },
        }
    }
}

/// The attempt that a search keeps, of the distances of its items to the target.
pub fn closest(distances: &[Option<Real>]) -> (r: Option<usize>)
    ensures
        match (r, closest_of(distances@)) {
            (Some(i), Some(best)) => i == best,
            (None, None) => true,
            _ => false,
        },
{
    let mut best: Option<usize> = None;
    for i in 0..distances.len()
        invariant
            match (best, closest_of(distances@.take(i as int))) {
                (Some(b), Some(kept)) => b == kept && b < i && distances@[b as int] is Some,
                (None, None) => true,
                _ => false,
            },
    {
        assert(distances@.take(i + 1).drop_last() =~= distances@.take(i as int));
        match distances[i] {
            Some(distance) => match best {
                None => {
                    best = Some(i);
                },
                Some(b) => match distances[b] {
                    Some(current) => {
                        if distance.lt(current) {
                            best = Some(i);
                        }
                    },
                    None => {},
                },
            },
            None => {},
        }
    }
    assert(distances@.take(distances@.len() as int) =~= distances@);
    best
}

/// How far predictions are from a target, where there is one.
pub open spec fn distances_from(target: Real, predictions: Seq<Option<Real>>) -> Seq<Option<Real>> {
    Seq::new(
        predictions.len(),
        |i: int|
            match predictions[i] {
                Some(predicted) => Some(predicted.minus(target).absolute()),
                None => None,
            },
    )
}

/// The attempt that a search for a difficulty keeps, of what its attempts predicted;
/// those that produced no item predicted nothing.
pub fn nearest_attempt(target: Real, predictions: &[Option<Real>]) -> (r: Option<usize>)
    ensures
        match (r, closest_of(distances_from(target, predictions@))) {
            (Some(i), Some(best)) => i == best,
            (None, None) => true,
            _ => false,
        },
{
    let mut distances: Vec<Option<Real>> = Vec::new();
    for i in 0..predictions.len()
        invariant
            distances@ == distances_from(target, predictions@).take(i as int),
    {
        distances.push(
            match predictions[i] {
                Some(predicted) => Some(predicted.subtract(target).abs()),
                None => None,
            },
        );
        assert(distances@ =~= distances_from(target, predictions@).take(i + 1));
    }
    assert(distances@ =~= distances_from(target, predictions@));
    closest(distances.as_slice())
}

/// A search keeps an item whenever an attempt produced one, and no attempt came
/// closer to the target than the one it keeps.
pub proof fn law_search_keeps_the_closest(distances: Seq<Option<Real>>, i: int)
    requires
        0 <= i < distances.len(),
        distances[i] is Some,
        forall|j: int|
            0 <= j < distances.len() && distances[j] is Some ==> !(#[trigger] distances[j]->0).not_a_number(),
    ensures
        closest_of(distances) matches Some(best) && 0 <= best < distances.len() && distances[best] is Some
            && distances[best]->0.at_most(distances[i]->0) && (distances[best]->0.equals(
            distances[i]->0,
        ) ==> best <= i),
    decreases distances.len(),
{
    let before = distances.drop_last();
    lemma_closest_is_an_item(before);
    if i < before.len() {
        assert(before[i] == distances[i]);
        assert forall|j: int| 0 <= j < before.len() && before[j] is Some implies !(
        #[trigger] before[j]->0).not_a_number() by {
            assert(distances[j] == before[j]);
        }
        law_search_keeps_the_closest(before, i);
    }
}

proof fn lemma_closest_is_an_item(distances: Seq<Option<Real>>)
    ensures
        closest_of(distances) matches Some(best) ==> 0 <= best < distances.len() && distances[best] is Some,
    decreases distances.len(),
{
    if distances.len() > 0 {
        lemma_closest_is_an_item(distances.drop_last());
    }
}


/// A plan is made exactly when all four parameters are given, and it takes the thickness, the span
/// and the turn as they are given.
pub proof fn law_a_plan_needs_all_its_parameters(params: Seq<(Seq<char>, Real)>)
    ensures
        plan_of(params) is Ok <==> param_of(params, "cap_thickness"@) is Some && param_of(
            params,
            "trim_depth"@,
        ) is Some && param_of(params, "region_span"@) is Some && param_of(params, "region_turn"@) is Some,
        plan_of(params) matches Err(name) ==> param_of(params, name) is None,
        plan_of(params) matches Ok(plan) ==> (Some(plan.cap_thickness) == param_of(
            params,
            "cap_thickness"@,
        ) && Some(plan.region_span) == param_of(params, "region_span"@) && Some(plan.region_turn)
            == param_of(params, "region_turn"@)),
{
}

/// No plan trims deeper than the cap is thick, and one that asks for less trims just what it asks
/// for.
pub proof fn law_a_trim_stays_within_the_cap(params: Seq<(Seq<char>, Real)>, plan: TrimPlan)
    requires
        plan_of(params) == Ok::<TrimPlan, Seq<char>>(plan),
        !plan.cap_thickness.not_a_number(),
    ensures
        plan.trim_depth.at_most(plan.cap_thickness),
        param_of(params, "trim_depth"@)->0.at_most(plan.cap_thickness) ==> plan.trim_depth
            == param_of(params, "trim_depth"@)->0,
        plan.trim_depth == plan.cap_thickness || Some(plan.trim_depth) == param_of(
            params,
            "trim_depth"@,
        ),
{
}

/// A whole number of layers is trimmed for a depth of that many, and none for a depth below zero.
pub proof fn law_a_depth_is_counted_in_layers(depth: Real, n: nat)
    requires
        depth.is_number(n as int),
        n <= u32::MAX,
    ensures
        layers(depth) == n,
        n > 0 ==> layers(depth.opposite()) == 0,
{
    crate::rounding::lemma_whole_is_rounded_to_itself(depth, n);
}

/// What can go wrong in making an item, and when: a prototype that cannot be used, hair that does not
/// grow, nothing to trim, a sector that no safe reference reaches or that is not solved by it, and a
/// result within a fiftieth of doing nothing. Where none of these holds there is an item.
pub proof fn law_an_item_fails_for_a_reason(
    plan: TrimPlan,
    usable: bool,
    shell: nat,
    standing: Option<nat>,
    solved: bool,
)
    ensures
        usable && shell > 0 && layers(plan.trim_depth) > 0 && !plan.region_span.below(Real { bits: 0 })
            && standing is Some && standing->0 < shell && 50 * (shell - standing->0) >= shell && solved
            ==> generation_failure(plan, usable, shell, standing, solved) is None,
        generation_failure(plan, usable, shell, standing, solved) matches Some(
            GenError::BadPrototype(_),
        ) ==> !usable,
        generation_failure(plan, usable, shell, standing, solved) matches Some(GenError::EmptyHairstyle)
            ==> shell == 0,
        generation_failure(plan, usable, shell, standing, solved) matches Some(GenError::NothingToRemove)
            ==> (layers(plan.trim_depth) == 0 || plan.region_span.below(Real { bits: 0 })),
        generation_failure(plan, usable, shell, standing, solved) matches Some(
            GenError::UnreachableSector,
        ) ==> (standing is None || standing->0 >= shell || !solved),
        generation_failure(plan, usable, shell, standing, solved) matches Some(GenError::MarginTooSmall)
            ==> (standing is Some && 50 * (shell - standing->0) < shell),
        !(generation_failure(plan, usable, shell, standing, solved) matches Some(
            GenError::MissingParam(_),
        )),
{
}

/// The attempts of one search do not repeat one another's seed.
pub proof fn law_attempts_draw_their_own_seeds(seed: u64, first: u32, second: u32)
    requires
        first != second,
    ensures
        0 <= attempt_seed(seed, first) <= u64::MAX,
        attempt_seed(seed, first) != attempt_seed(seed, second),
        attempt_seed(seed, 0) == seed * 0x9e37_79b9_7f4a_7c15 % 0x1_0000_0000_0000_0000,
{
}

/// Items of one family with different seeds have different identities.
pub proof fn law_seeds_tell_items_apart(family: Seq<char>, a: u64, b: u64)
    requires
        a != b,
    ensures
        item_id(family, a) != item_id(family, b),
{
    let (x, y) = (hex_text(a as nat, 16), hex_text(b as nat, 16));
    let front = family + "-"@;
    if front + x == front + y {
        assert((front + x).skip(front.len() as int) =~= x);
        assert((front + y).skip(front.len() as int) =~= y);
        assert(vstd::arithmetic::power::pow(16, 16) == 0x1_0000_0000_0000_0000) by {
            reveal_with_fuel(vstd::arithmetic::power::pow, 17);
        }
        crate::text::law_hex_digits_tell_numbers_apart(a as nat, b as nat, 16);
    }
}

/// An arm may be asked for the headings it reaches: one that turns up to some angle is asked as far
/// to the other side, so that an arm that turns alike to both sides is asked alike for both; one
/// without the joint is asked for any heading of the whole turn.
pub proof fn law_headings_lie_opposite_to_the_arm(turns: (Real, Real), joints: Seq<JointConfig>, i: int)
    requires
        are_turns(turns, joints),
        is_joint(joints, SWEEP_JOINT@, i),
        joints[i].min_angle_deg.value.finite(),
        joints[i].max_angle_deg.value.finite(),
    ensures
        joints[i].max_angle_deg.value == joints[i].min_angle_deg.value.opposite() ==> turns.0
            == turns.1.opposite(),
        !joints[i].max_angle_deg.value.is_negative() ==> turns.0.is_negative(),
        joints[i].min_angle_deg.value.is_negative() ==> !turns.1.is_negative(),
{
    reveal(Real::over);
    let j = choose|j: int| #[trigger]
        is_joint(joints, SWEEP_JOINT@, j) && turns == (
            joints[j].max_angle_deg.value.opposite().over(Real { bits: TURN }),
            joints[j].min_angle_deg.value.opposite().over(Real { bits: TURN }),
        );
    assert(i == j) by {
        if i < j {
            assert(joints[i].id@ == SWEEP_JOINT@);
        } else if j < i {
            assert(joints[j].id@ == SWEEP_JOINT@);
        }
    }
    crate::rounding::lemma_turn_is_not_nothing();
}

/// A generated item starts as one that nobody has answered: provisional, at the predicted difficulty,
/// with its family, seed and parameters on record so that it can be made again.
pub proof fn law_a_generated_item_starts_unanswered(
    family: ItemFamily,
    seed: u64,
    params: Seq<(Seq<char>, Real)>,
    predicted: Real,
)
    ensures
        generated_meta(family, seed, params, predicted).calibration is Provisional,
        generated_meta(family, seed, params, predicted).response_count == 0,
        generated_meta(family, seed, params, predicted).version == 1,
        generated_meta(family, seed, params, predicted).irt.difficulty == predicted,
        generated_meta(family, seed, params, predicted).irt.discrimination.bits
            == 0x3ff0_0000_0000_0000,
        generated_meta(family, seed, params, predicted).irt.guessing.bits == 0,
        generated_meta(family, seed, params, predicted).mastery_threshold.bits
            == 0x3fe0_0000_0000_0000,
        generated_meta(family, seed, params, predicted).dimensions == family.dimensions@,
        generated_meta(family, seed, params, predicted).hardware_compatible
            == family.hardware_compatible,
        generated_meta(family, seed, params, predicted).programming_modes
            == seq![ProgrammingMode::Servo],
        generated_meta(family, seed, params, predicted).generator matches Some(made)
            && made.family_id == family.id@ && made.version == family.version@ && made.seed == seed
            && made.params == params,
{
}


/// A prototype can be used exactly when its cells have a size and its head an extent along each of
/// the three axes.
pub proof fn law_a_prototype_has_a_size_and_a_head(prototype: ChallengeDefinition)
    ensures
        usable_prototype(prototype) <==> !prototype.voxel_config.size.value.at_most(Real { bits: 0 })
            && forall|axis: int|
            0 <= axis < 3 ==> !(#[trigger] prototype.voxel_config.head_scale@[axis]).value.at_most(
                Real { bits: 0 },
            ),
{
    let scale = prototype.voxel_config.head_scale@;
    let _ = (scale[0], scale[1], scale[2]);
}

/// An attempt is judged by how far its prediction lies from the target, on whichever side; one that
/// failed has no distance.
pub proof fn law_attempts_are_judged_on_both_sides(target: Real, predictions: Seq<Option<Real>>, i: int)
    requires
        0 <= i < predictions.len(),
        target.finite(),
    ensures
        distances_from(target, predictions).len() == predictions.len(),
        predictions[i] is None ==> distances_from(target, predictions)[i] is None,
        predictions[i] matches Some(predicted) ==> (predicted.finite() ==> distances_from(
            target,
            predictions,
        )[i] == Some(target.minus(predicted).absolute())),
        predictions[i] is Some ==> !distances_from(target, predictions)[i]->0.is_negative(),
{
    if predictions[i] is Some && predictions[i]->0.finite() {
        crate::rounding::law_distances_have_no_side(target, predictions[i]->0);
    }
}


/// A generated item is its prototype with other hair: it keeps the arm, the lattice, the blocks and the
/// scoring, starts from the hair that grew, and asks for the hair that its reference left.
pub proof fn law_a_generated_item_keeps_its_prototype(
    challenge: ChallengeDefinition,
    prototype: ChallengeDefinition,
    family: Seq<char>,
    seed: u64,
    shell: Seq<VoxelCoord>,
    name: Seq<char>,
    description: Seq<char>,
    target: Seq<VoxelCoord>,
    starter_workspace: Option<String>,
)
    requires
        is_item(
            challenge,
            prototype,
            family,
            seed,
            shell,
            name,
            description,
            target,
            starter_workspace,
        ),
    ensures
        challenge.robot_config == prototype.robot_config,
        challenge.voxel_config == prototype.voxel_config,
        challenge.allowed_blocks == prototype.allowed_blocks,
        challenge.scoring == prototype.scoring,
        challenge.initial_hair.voxels@ == shell,
        challenge.target_hair.voxels@ == target,
        challenge.starter_workspace == starter_workspace,
        challenge.name@ == name,
        challenge.description@ == description,
        challenge.id@.len() == family.len() + 17,
{
    reveal_strlit("-");
    lemma_hex_length(seed as nat, 16);
}

proof fn lemma_hex_length(n: nat, count: nat)
    ensures
        hex_text(n, count).len() == count,
    decreases count,
{
    if count > 0 {
        lemma_hex_length(n / 16, (count - 1) as nat);
    }
}


/// What may be varied in a trimmed cap: its thickness and the depth of the trim from one to three
/// layers, the width of the sector from a quarter of a turn to all of it, and its heading as far as
/// the arm goes.
pub proof fn law_what_a_cap_trim_varies(turn_min: Real, turn_max: Real)
    ensures
        ({
            let params = cap_trim_params(turn_min, turn_max);
            &&& params.len() == 4
            &&& params[0].0 == "cap_thickness"@ && params[0].1.bits == 0x3ff0_0000_0000_0000
                && params[0].2.bits == 0x4008_0000_0000_0000
            &&& params[1].0 == "trim_depth"@ && params[1].1.bits == 0x3ff0_0000_0000_0000
                && params[1].2.bits == 0x4008_0000_0000_0000
            &&& params[2].0 == "region_span"@ && params[2].1.bits == 0x3fd0_0000_0000_0000
                && params[2].2.bits == 0x3ff0_0000_0000_0000
            &&& params[3] == ("region_turn"@, turn_min, turn_max)
        }),
{
}

}
