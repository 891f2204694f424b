//! Item generation: shapes and features, the difficulty scale, reference
//! solutions and the cap-trim family.

use hcr::cutter::ProgrammingMode;
use hcr::difficulty::DifficultyModel;
use hcr::domain::{
    AllowedBlockType, Axis, ChallengeDefinition, HairstyleDefinition, JointConfig, Number,
    ProgramNode, RobotCollisionConfig, RobotConfig, RobotGeometryConfig, ScoreWeights,
    ScoringConfig, ServoAxisId, ServoMapping, TerminalReason, VoxelConfig, VoxelCoord,
};
use hcr::features::{head_column, removal, shape_counts, ChallengeFeatures, Point};
use hcr::generator::{
    attempts_made, candidate_seed, closest, generate_item, nearest_attempt, param,
    CapTrimGenerator, GenError,
};
use hcr::likelihood::Functions;
use hcr::meta::{CalibrationState, ParamValue, ParamVector, SkillDimension};
use hcr::number::Real;
use hcr::seed::{promoted, search_targets, shipped_meta, FIRST_SEARCH_SEED, SEARCH_ATTEMPTS};
use hcr::shell::{cell_centre, corners, shell as grown};
use hcr::starter::{
    find_joint, geometric_range, is_movable, place_angle, pose_joint, resolve, to_program, Block,
    Placement, ReferenceRun, ReferenceSearch, SearchStep, POSE_JOINTS, SWEEP_JOINT,
};
use hcr::voxels::{cells_between, keep_marked, VoxelSet};

fn float(value: f64) -> Real {
    Real { bits: value.to_bits() }
}

fn num(value: f64) -> Number {
    Number { value: float(value), shortest: format!("{value}") }
}

fn vec3(x: f64, y: f64, z: f64) -> [Number; 3] {
    [num(x), num(y), num(z)]
}

fn joint(id: &str, axis: Axis, min: f64, max: f64, initial: f64, speed: f64) -> JointConfig {
    JointConfig {
        id: id.to_string(),
        name: id.to_string(),
        axis,
        min_angle_deg: num(min),
        max_angle_deg: num(max),
        initial_angle_deg: num(initial),
        speed_deg_per_sec: num(speed),
        servo: None,
    }
}

/// The usual arm over a head with a single hair voxel.
fn definition(id: &str) -> ChallengeDefinition {
    ChallengeDefinition {
        id: id.to_string(),
        name: format!("Challenge {id}"),
        description: "test".to_string(),
        robot_config: RobotConfig {
            joints: vec![
                joint("baseYaw", Axis::Y, -60.0, 60.0, -45.0, 60.0),
                joint("shoulderRoll", Axis::X, -45.0, 45.0, 0.0, 45.0),
                joint("shoulder", Axis::Z, -20.0, 100.0, 45.0, 45.0),
                joint("elbow", Axis::Z, -135.0, 10.0, -80.0, 60.0),
                joint("wrist", Axis::Z, -100.0, 100.0, 35.0, 75.0),
            ],
            geometry: RobotGeometryConfig {
                base_position: vec3(0.0, 0.0, 0.0),
                shoulder_height: num(0.4),
                upper_arm_length: num(1.05),
                forearm_length: num(0.9),
                tool_length: num(0.35),
                tool_radius: num(0.12),
                collision: RobotCollisionConfig {
                    link_radius: num(0.075),
                    joint_radius: num(0.18),
                    tool_shaft_radius: num(0.075),
                    head_clearance: num(0.02),
                },
            },
        },
        voxel_config: VoxelConfig {
            origin: vec3(1.35, 1.5, 0.0),
            size: num(0.16),
            head_center: vec3(1.35, 1.42, 0.0),
            head_scale: vec3(0.68, 0.86, 0.68),
        },
        initial_hair: HairstyleDefinition {
            id: "i".to_string(),
            name: "i".to_string(),
            voxels: vec![VoxelCoord { x: 0, y: -5, z: 7 }],
        },
        target_hair: HairstyleDefinition {
            id: "t".to_string(),
            name: "t".to_string(),
            voxels: vec![],
        },
        allowed_blocks: vec![
            AllowedBlockType::SetJointAngle,
            AllowedBlockType::Wait,
            AllowedBlockType::Repeat,
        ],
        starter_workspace: None,
        scoring: ScoringConfig {
            weights: ScoreWeights {
                completion: float(0.6),
                efficiency: float(0.25),
                time: float(0.15),
            },
            reference_program_cost: float(6.25),
            reference_time_ms: float(5_645.0),
            command_weight: float(0.25),
        },
    }
}

fn value(number: Real) -> f64 {
    f64::from_bits(number.bits)
}

fn cell(x: i32, y: i32, z: i32) -> VoxelCoord {
    VoxelCoord { x, y, z }
}

fn features(
    removal_volume: f64,
    boundary_ratio: f64,
    asymmetry: f64,
    reach_strain: f64,
    head_proximity: f64,
) -> ChallengeFeatures {
    ChallengeFeatures {
        removal_volume: float(removal_volume),
        boundary_ratio: float(boundary_ratio),
        asymmetry: float(asymmetry),
        reach_strain: float(reach_strain),
        head_proximity: float(head_proximity),
    }
}

/// The difficulty that a model predicts.
fn predict(model: &DifficultyModel, features: &ChallengeFeatures) -> f64 {
    value(model.predict_features(features))
}

#[test]
fn every_feature_increases_predicted_difficulty() {
    let model = DifficultyModel::expert_prior();

    // The medians of the reference family: an all-zero baseline would sit below
    // the floor of the scale, where every variant flattens.
    let baseline = features(5.60, 0.94, 0.57, 0.65, 0.57);
    let base = predict(&model, &baseline);
    assert!(base > -3.0 && base < 3.0, "baseline {base} must not sit against a clamp");

    let variants = [
        ("removal_volume", features(6.60, 0.94, 0.57, 0.65, 0.57)),
        ("boundary_ratio", features(5.60, 0.99, 0.57, 0.65, 0.57)),
        ("asymmetry", features(5.60, 0.94, 0.77, 0.65, 0.57)),
        ("reach_strain", features(5.60, 0.94, 0.57, 0.85, 0.57)),
        ("head_proximity", features(5.60, 0.94, 0.57, 0.65, 0.72)),
    ];
    for (name, variant) in variants {
        let raised = predict(&model, &variant);
        assert!(raised > base, "raising {name} should make the item harder ({raised} vs {base})");
    }
}

#[test]
fn predictions_stay_inside_aronas_valid_range() {
    let model = DifficultyModel::expert_prior();

    // Absurd inputs in both directions must still yield a usable difficulty.
    let huge = features(1_000.0, 1.0, 1.0, 1.0, 1.0);
    let tiny = features(-1_000.0, 0.0, 0.0, 0.0, 0.0);

    assert_eq!(predict(&model, &huge), 3.0);
    assert_eq!(predict(&model, &tiny), -3.0);
}

#[test]
fn a_plausible_easy_item_lands_below_a_plausible_hard_one() {
    let model = DifficultyModel::default();
    // Small, blunt, symmetric, far from the head.
    let easy = features((1.0f64 + 8.0).ln(), 0.35, 0.05, 0.10, 0.10);
    // Large, filigreed, asymmetric, hugging the scalp at full reach.
    let hard = features((1.0f64 + 180.0).ln(), 0.85, 0.60, 0.75, 0.80);

    let (easy_b, hard_b) = (predict(&model, &easy), predict(&model, &hard));
    assert!(easy_b < hard_b, "easy={easy_b}, hard={hard_b}");
    assert!(
        easy_b < 0.0 && hard_b > 0.0,
        "the prior should straddle zero for these two: easy={easy_b}, hard={hard_b}"
    );
}

#[test]
fn the_expert_prior_holds_its_coefficients() {
    let model = DifficultyModel::expert_prior();
    assert_eq!(model.intercept, float(-5.0));
    assert_eq!(model.weights(), [0.30, 1.10, 0.90, 1.40, 1.70].map(float));
}

// ---------------------------------------------------------------------------
// Shapes
// ---------------------------------------------------------------------------

#[test]
fn voxel_sets_hold_each_cell_once_and_in_order() {
    let set = VoxelSet::of(&[cell(2, 0, 0), cell(-1, 5, 0), cell(2, 0, 0), cell(-1, 4, 9)]);
    assert_eq!(set.cells(), &vec![cell(-1, 4, 9), cell(-1, 5, 0), cell(2, 0, 0)]);
    assert_eq!(set.len(), 3);
    assert!(set.contains(cell(2, 0, 0)) && !set.contains(cell(0, 0, 0)));
    assert!(VoxelSet::new().is_empty());
}

#[test]
fn voxel_sets_combine_as_sets() {
    let a = VoxelSet::of(&[cell(0, 0, 0), cell(1, 0, 0)]);
    let b = VoxelSet::of(&[cell(1, 0, 0), cell(2, 0, 0)]);
    assert_eq!(a.union(&b).len(), 3);
    assert_eq!(a.intersection(&b).cells(), &vec![cell(1, 0, 0)]);
    assert_eq!(a.difference(&b).cells(), &vec![cell(0, 0, 0)]);
    let mut c = VoxelSet::new();
    c.insert(cell(0, 0, 4));
    assert_eq!(c.mirrored(1).cells(), &vec![cell(0, 0, -2)]);
    assert_eq!(c.mirrored(1).mirrored(1).cells(), c.cells());
}

#[test]
fn a_box_of_cells_is_listed_in_order() {
    let cells = cells_between(cell(-1, 4, 0), cell(0, 5, 2));
    assert_eq!(cells.len(), 12);
    assert_eq!(cells[0], cell(-1, 4, 0));
    assert_eq!(cells[3], cell(-1, 5, 0));
    assert_eq!(cells[11], cell(0, 5, 2));
    assert!(cells.windows(2).all(|pair| pair[0] < pair[1]));
    assert!(cells_between(cell(1, 0, 0), cell(0, 5, 5)).is_empty());
    let corner = cell(i32::MAX, i32::MAX, i32::MAX);
    assert_eq!(cells_between(corner, corner), vec![corner]);
    let marks: Vec<bool> = (0..12).map(|i| i % 4 == 1).collect();
    assert_eq!(
        keep_marked(&cells, &marks),
        vec![cell(-1, 4, 1), cell(-1, 5, 2), cell(0, 5, 0)]
    );
}

#[test]
fn the_boundary_is_what_is_exposed() {
    let mut cells = Vec::new();
    for x in 0..3 {
        for y in 0..3 {
            for z in 0..3 {
                cells.push(cell(x, y, z));
            }
        }
    }
    let cube = VoxelSet::of(&cells);
    let boundary = cube.boundary();
    assert_eq!(boundary.len(), 26);
    assert!(!boundary.contains(cell(1, 1, 1)));
}

#[test]
fn shapes_are_counted_against_their_mirror_image() {
    let initial: Vec<VoxelCoord> = (-2..3).map(|z| cell(0, 0, z)).collect();
    let symmetric = [cell(0, 0, -1), cell(0, 0, 0), cell(0, 0, 1)];
    let counts = shape_counts(&initial, &symmetric, 0);
    assert_eq!((counts.removed, counts.target, counts.boundary), (2, 3, 3));
    assert_eq!((counts.union, counts.shared), (3, 3));

    let lopsided = [cell(0, 0, 1), cell(0, 0, 2)];
    let counts = shape_counts(&initial, &lopsided, 0);
    assert_eq!((counts.removed, counts.target), (3, 2));
    assert_eq!((counts.union, counts.shared), (4, 0));
    assert_eq!(
        removal(&initial, &lopsided).cells(),
        &vec![cell(0, 0, -2), cell(0, 0, -1), cell(0, 0, 0)]
    );
}

#[test]
fn an_empty_challenge_produces_zeroed_features() {
    // Guards against a quotient of nothing by nothing.
    let empty = HairstyleDefinition { voxels: vec![], ..definition("prototype").initial_hair };
    let counts = shape_counts(&empty.voxels, &empty.voxels, 3);
    assert_eq!((counts.removed, counts.target, counts.boundary), (0, 0, 0));
    assert_eq!((counts.union, counts.shared), (0, 0));
    assert_eq!(counts.boundary_share(), (0, 1));
    assert_eq!(counts.asymmetry_share(), (0, 1));
    assert!(removal(&empty.voxels, &empty.voxels).is_empty());
}

fn machine() -> Functions<fn(Real) -> Real, fn(Real) -> Real, fn(Real) -> Real> {
    Functions {
        exponential: |x| float(value(x).exp()),
        logarithm: |x| float(value(x).ln()),
        root: |x| float(value(x).sqrt()),
    }
}

/// Where a cell lies: an edge length apart from its neighbours.
fn located(cell: VoxelCoord) -> Point {
    let at = |index: i32| float(0.1 + f64::from(index) * 0.25);
    Point { x: at(cell.x), y: at(cell.y), z: at(cell.z) }
}

#[test]
fn features_are_measured_as_the_machine_measures_them() {
    let mut challenge = definition("prototype");
    challenge.initial_hair.voxels = cells_between(
        VoxelCoord { x: 1, y: 2, z: -1 },
        VoxelCoord { x: 3, y: 6, z: 4 },
    );
    challenge.target_hair.voxels = challenge
        .initial_hair
        .voxels
        .iter()
        .copied()
        .filter(|cell| cell.y < 4 || cell.z == 2)
        .collect();
    let features = ChallengeFeatures::extract(&challenge, &located, &machine());

    let removed: Vec<VoxelCoord> = challenge
        .initial_hair
        .voxels
        .iter()
        .copied()
        .filter(|cell| !challenge.target_hair.voxels.contains(cell))
        .collect();
    let voxel = &challenge.voxel_config;
    let geometry = &challenge.robot_config.geometry;
    let centre = ((value(voxel.head_center[2].value) - value(voxel.origin[2].value))
        / value(voxel.size.value))
    .round() as i32;
    assert_eq!(head_column(voxel), centre);
    let counts = shape_counts(
        &challenge.initial_hair.voxels,
        &challenge.target_hair.voxels,
        centre,
    );
    assert_eq!(counts.removed, removed.len());
    assert_eq!(features.removal_volume, float((1.0 + removed.len() as f64).ln()));
    assert_eq!(value(features.boundary_ratio), counts.boundary as f64 / counts.target as f64);
    assert_eq!(
        value(features.asymmetry),
        (counts.union - counts.shared) as f64 / counts.union as f64
    );

    let base = |d: usize| value(geometry.base_position[d].value);
    let shoulder = [base(0), base(1) + value(geometry.shoulder_height.value), base(2)];
    let reach = value(geometry.upper_arm_length.value)
        + value(geometry.forearm_length.value)
        + value(geometry.tool_length.value);
    let (mut strain, mut closeness) = (0.0, 0.0);
    for cell in &removed {
        let point = located(*cell);
        let world = [value(point.x), value(point.y), value(point.z)];
        let away: f64 = (0..3).map(|d| (world[d] - shoulder[d]).powi(2)).sum::<f64>().sqrt();
        strain += ((away / reach - 0.7) / 0.3).clamp(0.0, 1.0);
        let radii: f64 = (0..3)
            .map(|d| {
                let offset =
                    (world[d] - value(voxel.head_center[d].value)) / value(voxel.head_scale[d].value);
                offset * offset
            })
            .sum::<f64>()
            .sqrt();
        closeness += ((1.6 - radii) / 0.6).clamp(0.0, 1.0);
    }
    assert!(strain > 0.0 || closeness > 0.0);
    assert_eq!(value(features.reach_strain), strain / removed.len() as f64);
    assert_eq!(value(features.head_proximity), closeness / removed.len() as f64);

    let model = DifficultyModel::expert_prior();
    let sum = model
        .weights()
        .iter()
        .zip(features.as_array())
        .fold(value(model.intercept), |sum, (weight, feature)| sum + value(*weight) * value(feature));
    assert_eq!(predict(&model, &features), sum.clamp(-3.0, 3.0));

    for feature in &features.as_array()[1..] {
        assert!((0.0..=1.0).contains(&value(*feature)));
    }

    // Nothing to remove, a head without extent, an arm without reach.
    let mut done = challenge.clone();
    done.target_hair = done.initial_hair.clone();
    let nothing = ChallengeFeatures::extract(&done, &located, &machine());
    assert_eq!((value(nothing.reach_strain), value(nothing.head_proximity)), (0.0, 0.0));
    let mut flat = challenge.clone();
    flat.voxel_config.head_scale[1] = num(0.0);
    flat.robot_config.geometry.upper_arm_length = num(-9.0);
    let nothing = ChallengeFeatures::extract(&flat, &located, &machine());
    assert_eq!((value(nothing.reach_strain), value(nothing.head_proximity)), (0.0, 0.0));
}

#[test]
fn hair_grows_in_a_shell_over_the_head() {
    let voxel = definition("prototype").voxel_config;
    let number = |number: &Number| value(number.value);
    let size = number(&voxel.size);
    for cap in [1.0, 2.5] {
        let mean = voxel.head_scale.iter().map(number).sum::<f64>() / 3.0;
        let thick = cap * size / mean;
        let extent =
            |d: usize| ((number(&voxel.head_scale[d]) * (1.0 + thick)) / size).ceil() as i32 + 2;
        let centre = |d: usize| {
            ((number(&voxel.head_center[d]) - number(&voxel.origin[d])) / size).round() as i32
        };
        let chin = number(&voxel.head_center[1]) - 0.35 * number(&voxel.head_scale[1]);
        let mut expected = Vec::new();
        for x in -extent(0)..=extent(0) {
            for y in -extent(1)..=extent(1) {
                for z in -extent(2)..=extent(2) {
                    let at = cell(centre(0) + x, centre(1) + y, centre(2) + z);
                    let world = [
                        number(&voxel.origin[0]) + f64::from(at.x) * size,
                        number(&voxel.origin[1]) + f64::from(at.y) * size,
                        number(&voxel.origin[2]) + f64::from(at.z) * size,
                    ];
                    let found = cell_centre(at, &voxel);
                    assert_eq!([value(found.x), value(found.y), value(found.z)], world);
                    let radius = (0..3)
                        .map(|d| {
                            let offset =
                                (world[d] - number(&voxel.head_center[d])) / number(&voxel.head_scale[d]);
                            offset * offset
                        })
                        .sum::<f64>()
                        .sqrt();
                    if world[1] >= chin && radius >= 1.0 && radius <= 1.0 + thick {
                        expected.push(at);
                    }
                }
            }
        }
        assert!(!expected.is_empty());
        assert_eq!(grown(&voxel, float(cap), &machine()), Some(expected));
    }
    let mut endless = voxel.clone();
    endless.size = num(1e-12);
    assert_eq!(grown(&endless, float(1.0), &machine()), None);
    assert!(corners(&endless, float(1.0)).is_none());
}

#[test]
fn the_arm_is_aimed_at_the_sector() {
    let servo = ServoMapping {
        axis: ServoAxisId::X,
        center_deg: num(90.0),
        direction: -1,
        offset_deg: num(5.0),
    };
    assert_eq!(value(servo.to_geometric_deg(float(100.0))), 5.0 - (100.0 - 90.0));
    assert_eq!(value(servo.to_servo_deg(float(-5.0))), 90.0 - (-5.0 - 5.0));

    let mut turned = joint("baseYaw", Axis::Y, 20.0, 160.0, 90.0, 90.0);
    turned.servo = Some(servo);
    let (low, high) = geometric_range(&turned);
    assert_eq!((value(low), value(high)), (-65.0, 75.0));
    assert_eq!(value(place_angle(float(80.0), &turned)), 20.0);
    assert!(is_movable(&turned));

    let shoulder = joint("shoulder", Axis::Z, -30.0, 75.0, 0.0, 90.0);
    let joints = [turned.clone(), shoulder, joint("wrist", Axis::Z, -70.0, 70.0, 0.0, 90.0)];
    let aimed = Placement::aim(&joints, float(0.05), float(0.1)).unwrap();
    // Thirty-six degrees about minus eighteen, as servo commands.
    assert_eq!(value(aimed.from), 90.0 - (-36.0 - 5.0));
    assert_eq!(value(aimed.to), 90.0 - (0.0 - 5.0));
    assert_eq!(value(aimed.pose[1]), 75.0);
    assert_eq!(value(aimed.pose[3]), -70.0);
    let heights: Vec<f64> = aimed.heights.iter().map(|height| value(*height)).collect();
    assert_eq!(heights, [75.0, 65.0, 55.0, 45.0]);

    // Half a turn away both ends of a sector meet at the end of the travel.
    assert!(Placement::aim(&joints, float(0.5), float(0.1)).is_none());
    // A sector without a width is a thin line.
    let line = Placement::aim(&joints, float(0.0), float(0.0)).unwrap();
    assert_eq!(line.from, line.to);
    assert!(Placement::aim(&joints[1..], float(0.05), float(0.1)).is_none());
    assert!(!is_movable(&joint("stuck", Axis::Z, 10.0, -10.0, 0.0, 90.0)));
}

#[test]
fn shares_are_parts_of_what_is_counted() {
    let initial: Vec<VoxelCoord> = (-2..=2).map(|z| cell(0, 0, z)).collect();
    let symmetric = shape_counts(&initial, &[cell(0, 0, -1), cell(0, 0, 0), cell(0, 0, 1)], 0);
    assert_eq!(symmetric.boundary_share(), (3, 3));
    assert_eq!(symmetric.asymmetry_share(), (0, 3));
    let lopsided = shape_counts(&initial, &[cell(0, 0, 0), cell(0, 0, 1)], 0);
    assert_eq!(lopsided.asymmetry_share(), (2, 3));
}

// ---------------------------------------------------------------------------
// The cap-trim family
// ---------------------------------------------------------------------------

fn params(thickness: f64, depth: f64, span: f64, turn: f64) -> ParamVector {
    [
        ("cap_thickness", thickness),
        ("trim_depth", depth),
        ("region_span", span),
        ("region_turn", turn),
    ]
    .iter()
    .map(|(name, value)| ParamValue { name: name.to_string(), value: float(*value) })
    .collect()
}

fn generator() -> CapTrimGenerator {
    CapTrimGenerator::new(definition("prototype"))
}

fn shell() -> Vec<VoxelCoord> {
    (0..100).map(|x| cell(x, 0, 0)).collect()
}

fn outline(seed: u64, vector: &ParamVector, cells: Vec<VoxelCoord>) -> Result<ChallengeDefinition, GenError> {
    let generator = generator();
    let plan = generator.plan(vector)?;
    CapTrimGenerator::outline(
        generator.prototype,
        &generator.family.id,
        seed,
        &plan,
        cells,
        "Cap Trim 60%".to_string(),
        "Trim it.".to_string(),
    )
}

/// A finished reference search that left `standing`.
fn reference(standing: Vec<VoxelCoord>) -> ReferenceRun {
    let search =
        ReferenceSearch::new(&definition("p").robot_config.joints, Some(placement()), 1).unwrap();
    match search.report(Some((TerminalReason::Completed, standing))) {
        SearchStep::Found(run) => run,
        other => panic!("{other:?}"),
    }
}

#[test]
fn the_target_is_part_of_the_hair_and_holds_no_cell_twice() {
    let kept: Vec<VoxelCoord> = shell().into_iter().skip(10).collect();
    let mut told = kept.clone();
    told.extend(kept.iter().copied().rev());
    // A cell that was never there is not part of what is left of the hair.
    told.push(cell(-900, 0, 0));
    let run = reference(told);
    assert_eq!(run.remaining().len(), kept.len() + 1);
    let adopted =
        CapTrimGenerator::adopt(
            outline(1, &params(2.0, 1.0, 0.5, 0.0), shell()).unwrap(),
            Some(&run),
            None,
        )
        .unwrap();
    let target = &adopted.target_hair.voxels;
    assert_eq!(target.len(), kept.len());
    assert!(target.iter().all(|cell| kept.contains(cell)));
    let place = |cell: &VoxelCoord| (cell.x, cell.y, cell.z);
    assert!(target.windows(2).all(|pair| place(&pair[0]) < place(&pair[1])));
}

#[test]
fn a_missing_parameter_is_reported_by_name() {
    let mut incomplete = params(2.0, 1.0, 0.5, 0.0);
    incomplete.retain(|param| param.name != "region_span");

    assert_eq!(
        generator().plan(&incomplete).unwrap_err(),
        GenError::MissingParam("region_span".to_string())
    );
    assert_eq!(param(&incomplete, "trim_depth"), Ok(float(1.0)));
    assert_eq!(
        CapTrimGenerator::passes(&Vec::new()).unwrap_err().message(),
        "missing parameter `cap_thickness`"
    );
}

#[test]
fn degenerate_parameters_are_rejected_rather_than_served() {
    // Zero trim depth leaves the cap untouched, so there is no task at all.
    let result = outline(1, &params(2.0, 0.0, 0.6, 0.0), shell());
    assert_eq!(result.unwrap_err(), GenError::NothingToRemove);

    // A zero-width sector still shaves a thin line, which is a narrow but
    // legitimate precision task: not degenerate.
    let outlined = outline(1, &params(2.0, 1.0, 0.0, 0.0), shell()).unwrap();
    let thin_line = reference(shell()[12..].to_vec());
    let sliver = CapTrimGenerator::adopt(outlined, Some(&thin_line), None).unwrap();
    assert!(sliver.target_hair.voxels.len() < sliver.initial_hair.voxels.len());
}

/// What is generated over a shell of a hundred cells.
fn generate(
    vector: &ParamVector,
    standing: Option<usize>,
    solved: bool,
) -> Result<ChallengeDefinition, GenError> {
    let run = standing.map(|left| reference(shell()[..left].to_vec()));
    generator().generate(
        42,
        vector,
        shell(),
        "Cap Trim 60%".to_string(),
        "Trim it.".to_string(),
        run.as_ref(),
        Some("{}".to_string()),
        solved,
    )
}

#[test]
fn generation_adopts_what_a_solution_leaves_standing() {
    let vector = params(2.0, 1.0, 0.6, 0.0);
    let challenge = generate(&vector, Some(60), true).unwrap();
    assert_eq!(challenge.id, "cap-trim-000000000000002a");
    assert_eq!(challenge.initial_hair.voxels, shell());
    assert_eq!(challenge.target_hair.voxels, shell()[..60]);
    assert_eq!(challenge.target_hair.id, "cap-trim-000000000000002a-target");
    assert_eq!(challenge.starter_workspace.as_deref(), Some("{}"));

    assert_eq!(generate(&vector, None, false), Err(GenError::UnreachableSector));
    assert_eq!(generate(&vector, Some(100), true), Err(GenError::UnreachableSector));
    assert_eq!(generate(&vector, Some(99), true), Err(GenError::MarginTooSmall));
    assert!(generate(&vector, Some(98), true).is_ok());
    assert_eq!(generate(&vector, Some(60), false), Err(GenError::UnreachableSector));
    assert_eq!(
        generate(&params(2.0, 0.0, 0.6, 0.0), Some(60), true),
        Err(GenError::NothingToRemove)
    );
    assert_eq!(
        generate(&vector[..3].to_vec(), Some(60), true),
        Err(GenError::MissingParam("region_turn".to_string()))
    );
}

#[test]
fn unusable_outlines_are_refused_before_anything_is_replayed() {
    assert_eq!(
        outline(1, &params(2.0, 1.0, -0.1, 0.0), shell()).unwrap_err(),
        GenError::NothingToRemove
    );
    assert_eq!(
        outline(1, &params(2.0, 1.0, 0.6, 0.0), vec![]).unwrap_err(),
        GenError::EmptyHairstyle
    );
    let mut flat = generator();
    flat.prototype.voxel_config.size = num(0.0);
    assert!(matches!(flat.plan(&params(2.0, 1.0, 0.6, 0.0)), Err(GenError::BadPrototype(_))));
}

#[test]
fn a_trim_is_no_deeper_than_the_cap() {
    assert_eq!(CapTrimGenerator::passes(&params(2.0, 3.0, 0.5, 0.0)), Ok(2));
    assert_eq!(CapTrimGenerator::passes(&params(3.0, 2.5, 0.5, 0.0)), Ok(3));
    assert_eq!(CapTrimGenerator::passes(&params(3.0, -2.0, 0.5, 0.0)), Ok(0));
    let plan = generator().plan(&params(2.0, 3.0, 0.5, 0.25)).unwrap();
    assert_eq!(plan.trim_depth, float(2.0));
    assert_eq!(plan.region_turn, float(0.25));
}

#[test]
fn an_outline_is_a_function_of_its_seed_and_parameters() {
    let vector = params(2.0, 1.0, 0.55, 0.3);
    let first = outline(42, &vector, shell()).unwrap();
    let second = outline(42, &vector, shell()).unwrap();
    assert_eq!(first, second);
    assert_eq!(first.id, "cap-trim-000000000000002a");
    assert_eq!(first.initial_hair.id, "cap-trim-000000000000002a-initial");
    assert_eq!(first.target_hair.id, "cap-trim-000000000000002a-target");
    assert_eq!(first.target_hair.voxels, first.initial_hair.voxels);
    assert!(first.starter_workspace.is_none());
}

#[test]
fn the_target_is_what_the_reference_leaves() {
    let challenge = outline(1, &params(2.0, 1.0, 0.6, 0.0), shell()).unwrap();
    let run = reference(shell().into_iter().skip(10).rev().collect());
    let adopted =
        CapTrimGenerator::adopt(challenge.clone(), Some(&run), Some("{}".to_string())).unwrap();
    assert_eq!(adopted.target_hair.voxels.len(), 90);
    assert_eq!(adopted.target_hair.voxels[0], cell(10, 0, 0), "in order, whatever the replay said");
    assert_eq!(adopted.starter_workspace.as_deref(), Some("{}"));
    assert_eq!(adopted.initial_hair, challenge.initial_hair);
    assert_eq!(CapTrimGenerator::confirm(adopted.clone(), true).unwrap(), adopted);
    assert_eq!(
        CapTrimGenerator::confirm(adopted, false).unwrap_err(),
        GenError::UnreachableSector
    );
}

#[test]
fn a_reference_must_remove_a_fiftieth() {
    let challenge = || outline(1, &params(2.0, 1.0, 0.6, 0.0), shell()).unwrap();
    assert_eq!(
        CapTrimGenerator::adopt(challenge(), None, None).unwrap_err(),
        GenError::UnreachableSector
    );
    assert_eq!(
        CapTrimGenerator::adopt(challenge(), Some(&reference(shell())), None).unwrap_err(),
        GenError::UnreachableSector
    );
    let one_less = reference(shell().into_iter().skip(1).collect());
    assert_eq!(
        CapTrimGenerator::adopt(challenge(), Some(&one_less), None).unwrap_err(),
        GenError::MarginTooSmall
    );
    let two_less = reference(shell().into_iter().skip(2).collect());
    assert!(CapTrimGenerator::adopt(challenge(), Some(&two_less), None).is_ok());
}

#[test]
fn generated_items_are_provisional_and_carry_provenance() {
    let vector = params(2.0, 1.0, 0.6, 0.25);
    let challenge = outline(7, &vector, shell()).unwrap();
    let item = generate_item(
        &generator().family,
        challenge,
        7,
        &vector,
        float(0.4),
        features(1.0, 0.0, 0.0, 0.0, 0.0),
    );

    // Nobody has attempted it, so it cannot claim to be calibrated.
    assert_eq!(item.dto.meta.calibration, CalibrationState::Provisional);
    assert_eq!(item.dto.meta.response_count, 0);
    assert_eq!(item.dto.meta.irt.difficulty, float(0.4));
    assert_eq!(item.predicted_difficulty, float(0.4));

    let provenance = item.dto.meta.generator.as_ref().unwrap();
    assert_eq!(provenance.family_id, "cap-trim");
    assert_eq!(provenance.seed, 7);
    assert_eq!(provenance.params, vector);

    // Reproducing from the recorded provenance yields the same hairstyles.
    let again = outline(provenance.seed, &provenance.params, shell()).unwrap();
    assert_eq!(again.target_hair.voxels, item.dto.challenge.target_hair.voxels);
}

#[test]
fn the_family_is_bounded_by_what_the_arm_can_reach() {
    let (low, high) = CapTrimGenerator::reachable_turns(&definition("p"));
    assert_eq!((low, high), (float(-60.0 / 360.0), float(60.0 / 360.0)));
    let mut armless = definition("p");
    armless.robot_config.joints.clear();
    assert_eq!(CapTrimGenerator::reachable_turns(&armless), (float(0.0), float(1.0)));

    let family = generator().family;
    assert_eq!(family.version, "3");
    assert_eq!(
        family.dimensions,
        vec![SkillDimension::Kinematics, SkillDimension::Precision, SkillDimension::Safety]
    );
    let bounds: Vec<(String, f64, f64)> =
        family.params.iter().map(|p| (p.name.clone(), value(p.min), value(p.max))).collect();
    assert_eq!(bounds[0], ("cap_thickness".to_string(), 1.0, 3.0));
    assert_eq!(bounds[2], ("region_span".to_string(), 0.25, 1.0));
    assert_eq!(bounds[3], ("region_turn".to_string(), -1.0 / 6.0, 1.0 / 6.0));
}

#[test]
fn a_search_keeps_the_first_of_the_closest() {
    assert_eq!(closest(&[]), None);
    assert_eq!(closest(&[None, None]), None);
    assert_eq!(nearest_attempt(float(1.0), &[None, None]), None);
    let predicted = [Some(float(-1.0)), None, Some(float(1.5)), Some(float(0.5))];
    assert_eq!(nearest_attempt(float(1.0), &predicted), Some(2));
    assert_eq!(nearest_attempt(float(-3.0), &predicted), Some(0));
    assert_eq!(
        closest(&[None, Some(float(0.5)), Some(float(0.25)), None, Some(float(0.25))]),
        Some(2)
    );
    assert_eq!(attempts_made(0), 1);
    assert_eq!(attempts_made(48), 48);
    assert_eq!(
        candidate_seed(99, 3),
        99u64.wrapping_mul(0x9E37_79B9_7F4A_7C15).wrapping_add(3)
    );
    assert_ne!(candidate_seed(99, 3), candidate_seed(99, 4));
}

#[test]
fn every_refusal_to_generate_has_a_sentence() {
    let sentences = [
        GenError::MissingParam("x".to_string()).message(),
        GenError::EmptyHairstyle.message(),
        GenError::NothingToRemove.message(),
        GenError::UnreachableSector.message(),
        GenError::MarginTooSmall.message(),
        GenError::BadPrototype("flat").message(),
    ];
    assert_eq!(
        sentences,
        [
            "missing parameter `x`",
            "generated hairstyle is empty",
            "generated target equals the initial hairstyle",
            "no safe reference solution trims the requested sector",
            "finishing scores too close to doing nothing",
            "unusable prototype: flat",
        ]
    );
}

// ---------------------------------------------------------------------------
// Reference solutions
// ---------------------------------------------------------------------------

fn placement() -> Placement {
    Placement {
        pose: [15.0, 80.0, 0.0, -80.0].map(float),
        from: float(-50.0),
        to: float(40.0),
        heights: [80.0, 70.0, 60.0, 50.0].map(float),
    }
}

fn angles(search: &ReferenceSearch) -> Vec<(String, f64)> {
    search
        .candidate()
        .expect("a candidate")
        .nodes
        .iter()
        .map(|node| match node {
            ProgramNode::SetJointAngle { angle_deg, source_block_id, .. } => {
                (source_block_id.clone(), value(*angle_deg))
            }
            other => panic!("{other:?}"),
        })
        .collect()
}

#[test]
fn a_reference_poses_the_arm_and_sweeps_to_and_fro() {
    let joints = definition("p").robot_config.joints;
    let search = ReferenceSearch::new(&joints, Some(placement()), 2).unwrap();
    let expected: Vec<(String, f64)> = [
        ("starter-shoulderRoll", 15.0),
        ("starter-shoulder", 80.0),
        ("starter-elbow", 0.0),
        ("starter-wrist", -80.0),
        ("reference-sweep-0-a", -50.0),
        ("reference-sweep-0-b", 40.0),
        ("reference-height-1", 70.0),
        ("reference-sweep-1-a", 40.0),
        ("reference-sweep-1-b", -50.0),
    ]
    .iter()
    .map(|(id, angle)| (id.to_string(), *angle))
    .collect();
    assert_eq!(angles(&search), expected);
}

#[test]
fn passes_are_held_to_what_a_learner_could_rebuild() {
    let joints = definition("p").robot_config.joints;
    let blocks = |passes: u32| {
        angles(&ReferenceSearch::new(&joints, Some(placement()), passes).unwrap()).len()
    };
    assert_eq!(blocks(0), blocks(1));
    assert_eq!(blocks(1), 6);
    assert_eq!(blocks(4), 15);
    assert_eq!(blocks(400), 15);
}

#[test]
fn there_is_no_reference_without_a_pose_or_a_sector() {
    let joints = definition("p").robot_config.joints;
    assert!(ReferenceSearch::new(&joints, None, 1).is_none());
    assert!(ReferenceSearch::new(&joints[..1], Some(placement()), 1).is_none());
    assert!(ReferenceSearch::new(&[], Some(placement()), 1).is_none());
    assert_eq!(find_joint(&joints, SWEEP_JOINT).unwrap().id, "baseYaw");
    let pose: Vec<&str> = (0..POSE_JOINTS).map(pose_joint).collect();
    assert_eq!(pose, ["shoulderRoll", "shoulder", "elbow", "wrist"]);
}

#[test]
fn a_search_keeps_the_longest_prefix_that_completes() {
    let joints = definition("p").robot_config.joints;
    let search = ReferenceSearch::new(&joints, Some(placement()), 1).unwrap();
    // A run that was stopped is none, though it left hair standing.
    let search = match search.report(Some((TerminalReason::HeadCollision, shell()))) {
        SearchStep::Retry(search) => search,
        other => panic!("{other:?}"),
    };
    assert_eq!(angles(&search).len(), 5);
    match search.report(Some((TerminalReason::Completed, vec![cell(1, 0, 0), cell(0, 0, 0)]))) {
        SearchStep::Found(run) => {
            assert_eq!(run.remaining(), &vec![cell(0, 0, 0), cell(1, 0, 0)]);
            assert_eq!(run.program().nodes.len(), 5);
            assert_eq!(run.program().source_block_count, 5);
            // The starter shows the pose and withholds the carving.
            let mut shown: Vec<(String, String)> = Vec::new();
            let mut chained = run.starter_workspace();
            while let Some(top) = chained {
                shown.push((top.block.block_id, top.block.joint_id));
                chained = top.next;
            }
            let expected: Vec<(String, String)> = (0..POSE_JOINTS)
                .map(|step| (format!("starter-{}", pose_joint(step)), pose_joint(step).to_string()))
                .collect();
            assert_eq!(shown, expected);
            assert!(run.removes_any(3) && !run.removes_any(2));
        }
        other => panic!("{other:?}"),
    }
}

#[test]
fn a_search_ends_when_only_the_pose_is_left() {
    let joints = definition("p").robot_config.joints;
    let mut search = ReferenceSearch::new(&joints, Some(placement()), 1).unwrap();
    let mut tries = 0;
    while search.candidate().is_some() {
        tries += 1;
        search = match search.report(None) {
            SearchStep::Retry(search) => search,
            other => panic!("{other:?}"),
        };
    }
    assert_eq!(tries, 2);
}

#[test]
fn a_perfect_replay_solves_the_item() {
    for score in [100.0, 100.0 - 9e-7, 100.0 + 9e-7] {
        assert!(ReferenceRun::solves(TerminalReason::Completed, float(score)));
    }
    for score in [0.0, 100.0 - 2e-6, 100.0 + 2e-6, f64::NAN] {
        assert!(!ReferenceRun::solves(TerminalReason::Completed, float(score)));
    }
    assert!(!ReferenceRun::solves(TerminalReason::HeadCollision, float(100.0)));
}

#[test]
fn a_heading_is_spelled_as_the_joint_can_reach_it() {
    let (low, high) = (float(-60.0), float(60.0));
    let spelled = |angle: f64| [angle, angle + 360.0, angle - 360.0].map(float);
    assert_eq!(resolve(spelled(30.0), low, high), float(30.0));
    assert_eq!(resolve(spelled(-330.0), low, high), float(30.0));
    assert_eq!(resolve(spelled(350.0), low, high), float(-10.0));
    assert_eq!(resolve(spelled(100.0), low, high), float(60.0));
    assert_eq!(resolve(spelled(-170.0), low, high), float(-60.0));
}

#[test]
fn blocks_become_a_program() {
    let blocks = vec![Block {
        block_id: "b".to_string(),
        joint_id: "elbow".to_string(),
        angle: float(-10.0),
    }];
    let program = to_program(&blocks);
    assert_eq!(program.source_block_count, 1);
    match &program.nodes[0] {
        ProgramNode::SetJointAngle { joint_id, angle_deg, source_block_id } => {
            assert_eq!(joint_id, "elbow");
            assert_eq!(*angle_deg, float(-10.0));
            assert_eq!(source_block_id, "b");
        }
        other => panic!("{other:?}"),
    }
}

// ---------------------------------------------------------------------------
// The seeded catalog
// ---------------------------------------------------------------------------

#[test]
fn seeded_items_measure() {
    assert_eq!(search_targets(), [-1.0, 0.0, 1.0].map(float));
    assert_eq!((FIRST_SEARCH_SEED, SEARCH_ATTEMPTS), (40, 48));
    let shipped = shipped_meta();
    assert!(shipped.calibration.usable_for_measurement());
    assert!(shipped.supports(ProgrammingMode::CutterGrid));
    assert_eq!(shipped.irt.discrimination, float(1.2));
    assert!(!shipped.hardware_compatible);

    let vector = params(2.0, 1.0, 0.6, 0.25);
    let challenge = outline(7, &vector, shell()).unwrap();
    let item = generate_item(
        &generator().family,
        challenge,
        7,
        &vector,
        float(0.4),
        features(1.0, 0.0, 0.0, 0.0, 0.0),
    );
    let online = promoted(item.dto.meta);
    assert_eq!(online.calibration, CalibrationState::Online);
    assert_eq!(online.response_count, 50);
    assert!(online.calibration.usable_for_measurement());
}
