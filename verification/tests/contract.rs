//! The vocabulary that clients and the service share: directions, signatures,
//! error codes, numbers and text.

use hcr::cutter::{
    CutterGridAction, CutterGridDirection, CutterGridNode, CutterGridPlanningErrorCodeV4,
    CutterGridPlanningStageV4, ProgrammingMode,
};
use hcr::domain::{
    AllowedBlockType, Axis, ChallengeDefinition, HairstyleDefinition, JointConfig, Number,
    ProgramMetrics, RobotCollisionConfig, RobotCommand, RobotConfig, RobotGeometryConfig,
    ScoreWeights, ScoringConfig, ServoAxisId, ServoMapping, Terminal, TerminalReason, VoxelConfig,
    VoxelCoord,
};
use hcr::error::{coord_key, read_coord, ServiceError, SimError};
use hcr::meta::{CalibrationState, ChallengeMeta, ItemParameters, SkillDimension};
use hcr::number::Real;
use hcr::rounding::from_percent;
use hcr::signature::{
    cutter_grid_challenge_signature_v2, fnv1a64, number, signature_document, write_escaped,
};
use hcr::table::TextMap;
use hcr::text::{
    ascii_lower, hex_of_bytes, is_white_space, less, parse_i32, parse_u32, push_decimal,
    push_hex, push_integer, same, same_ignoring_ascii_case, split, trim,
};
use hcr::wire::{Envelope, HcrError, HcrErrorCode, PROTOCOL_VERSION};

fn float(value: f64) -> Real {
    Real { bits: value.to_bits() }
}

fn num(value: f64) -> Number {
    Number { value: float(value), shortest: format!("{value}") }
}

fn vec3(x: f64, y: f64, z: f64) -> [Number; 3] {
    [num(x), num(y), num(z)]
}

fn joint(id: &str, axis: Axis, min: f64, max: f64, initial: f64, speed: f64) -> JointConfig {
    JointConfig {
        id: id.to_string(),
        name: id.to_string(),
        axis,
        min_angle_deg: num(min),
        max_angle_deg: num(max),
        initial_angle_deg: num(initial),
        speed_deg_per_sec: num(speed),
        servo: None,
    }
}

/// The usual arm over a head with a single hair voxel.
fn definition(id: &str) -> ChallengeDefinition {
    ChallengeDefinition {
        id: id.to_string(),
        name: format!("Challenge {id}"),
        description: "test".to_string(),
        robot_config: RobotConfig {
            joints: vec![
                joint("baseYaw", Axis::Y, -60.0, 60.0, -45.0, 60.0),
                joint("shoulderRoll", Axis::X, -45.0, 45.0, 0.0, 45.0),
                joint("shoulder", Axis::Z, -20.0, 100.0, 45.0, 45.0),
                joint("elbow", Axis::Z, -135.0, 10.0, -80.0, 60.0),
                joint("wrist", Axis::Z, -100.0, 100.0, 35.0, 75.0),
            ],
            geometry: RobotGeometryConfig {
                base_position: vec3(0.0, 0.0, 0.0),
                shoulder_height: num(0.4),
                upper_arm_length: num(1.05),
                forearm_length: num(0.9),
                tool_length: num(0.35),
                tool_radius: num(0.12),
                collision: RobotCollisionConfig {
                    link_radius: num(0.075),
                    joint_radius: num(0.18),
                    tool_shaft_radius: num(0.075),
                    head_clearance: num(0.02),
                },
            },
        },
        voxel_config: VoxelConfig {
            origin: vec3(1.35, 1.5, 0.0),
            size: num(0.16),
            head_center: vec3(1.35, 1.42, 0.0),
            head_scale: vec3(0.68, 0.86, 0.68),
        },
        initial_hair: HairstyleDefinition {
            id: "i".to_string(),
            name: "i".to_string(),
            voxels: vec![VoxelCoord { x: 0, y: -5, z: 7 }],
        },
        target_hair: HairstyleDefinition {
            id: "t".to_string(),
            name: "t".to_string(),
            voxels: vec![],
        },
        allowed_blocks: vec![
            AllowedBlockType::SetJointAngle,
            AllowedBlockType::Wait,
            AllowedBlockType::Repeat,
        ],
        starter_workspace: None,
        scoring: ScoringConfig {
            weights: ScoreWeights {
                completion: float(0.6),
                efficiency: float(0.25),
                time: float(0.15),
            },
            reference_program_cost: float(6.25),
            reference_time_ms: float(5_645.0),
            command_weight: float(0.25),
        },
    }
}

#[test]
fn directions_agree_with_the_frontend_delta_table() {
    // Forward is -Z and Backward is +Z: the pair that is easiest to get
    // backwards, since a mirrored cut still scores non-zero.
    assert_eq!(CutterGridDirection::Right.delta(), [1, 0, 0]);
    assert_eq!(CutterGridDirection::Left.delta(), [-1, 0, 0]);
    assert_eq!(CutterGridDirection::Up.delta(), [0, 1, 0]);
    assert_eq!(CutterGridDirection::Down.delta(), [0, -1, 0]);
    assert_eq!(CutterGridDirection::Forward.delta(), [0, 0, -1]);
    assert_eq!(CutterGridDirection::Backward.delta(), [0, 0, 1]);
}

#[test]
fn axis_and_sign_reconstruct_the_delta() {
    for direction in [
        CutterGridDirection::Right,
        CutterGridDirection::Left,
        CutterGridDirection::Up,
        CutterGridDirection::Down,
        CutterGridDirection::Forward,
        CutterGridDirection::Backward,
    ] {
        let mut rebuilt = [0i32; 3];
        rebuilt[direction.axis()] = direction.sign();
        assert_eq!(rebuilt, direction.delta(), "{direction:?}");
    }
}

#[test]
fn v4_planning_failure_codes_match_the_frontend_spellings() {
    assert_eq!(
        CutterGridPlanningErrorCodeV4::EndpointPtpDisconnected.as_str(),
        "endpoint-ptp-disconnected"
    );
    assert_eq!(CutterGridPlanningStageV4::MotionCertificate.as_str(), "motion-certificate");
}

#[test]
fn every_planning_failure_code_has_its_own_spelling() {
    let spellings = [
        CutterGridPlanningErrorCodeV4::PlannerNotReady.as_str(),
        CutterGridPlanningErrorCodeV4::PlanningCancelled.as_str(),
        CutterGridPlanningErrorCodeV4::ProfileV4Mismatch.as_str(),
        CutterGridPlanningErrorCodeV4::OutOfBounds.as_str(),
        CutterGridPlanningErrorCodeV4::EndpointIkNotConverged.as_str(),
        CutterGridPlanningErrorCodeV4::EndpointIkSearchExhausted.as_str(),
        CutterGridPlanningErrorCodeV4::EndpointPtpDisconnected.as_str(),
        CutterGridPlanningErrorCodeV4::MotionPrimitiveBudgetExhausted.as_str(),
        CutterGridPlanningErrorCodeV4::PtpCollision.as_str(),
        CutterGridPlanningErrorCodeV4::PtpCertificateFailed.as_str(),
        CutterGridPlanningErrorCodeV4::ActualSweepCertificationFailed.as_str(),
        CutterGridPlanningErrorCodeV4::PlanSignatureMismatch.as_str(),
    ];
    for (i, a) in spellings.iter().enumerate() {
        for b in &spellings[i + 1..] {
            assert_ne!(a, b);
        }
    }
}

#[test]
fn nodes_and_actions_name_the_block_they_came_from() {
    let node = CutterGridNode::Move {
        direction: CutterGridDirection::Right,
        distance: 3,
        source_block_id: "block-1".to_string(),
    };
    assert_eq!(node.source_block_id(), "block-1");
    let nested = CutterGridNode::Repeat {
        count: 2,
        body: vec![node],
        source_block_id: "loop".to_string(),
    };
    assert_eq!(nested.source_block_id(), "loop");
    let wait = CutterGridAction::Wait { duration_ms: float(5.0), source_block_id: "w".to_string() };
    assert_eq!(wait.source_block_id(), "w");
    let command = RobotCommand::SetJointAngle {
        joint_id: "baseYaw".to_string(),
        angle_deg: float(1.0),
        source_block_id: "c".to_string(),
    };
    assert_eq!(command.source_block_id(), "c");
}

#[test]
fn servo_is_the_default_mode() {
    assert!(ProgrammingMode::default().is_default());
    assert!(ProgrammingMode::Servo.is_default());
    assert!(!ProgrammingMode::CutterGrid.is_default());
    assert_eq!(ProgrammingMode::Servo.as_str(), "servo");
    assert_eq!(ProgrammingMode::CutterGrid.as_str(), "cutter-grid");
}

#[test]
fn fnv1a64_matches_the_reference_vector() {
    // The empty string is the algorithm's published offset basis, which is the
    // one value a slip in either constant cannot survive.
    assert_eq!(fnv1a64(""), "cbf29ce484222325");
    assert_eq!(fnv1a64("a"), "af63dc4c8601ec8c");
    assert_eq!(fnv1a64("foobar"), "85944171f73967e8");
}

#[test]
fn a_character_outside_the_basic_plane_folds_as_two_units() {
    let mut value: u64 = 14_695_981_039_346_656_037;
    for unit in "\u{1F488}".encode_utf16() {
        value ^= u64::from(unit);
        value = value.wrapping_mul(1_099_511_628_211);
    }
    assert_eq!(fnv1a64("\u{1F488}"), format!("{value:016x}"));
}

#[test]
fn integral_numbers_lose_their_fractional_part() {
    assert_eq!(number(&num(45.0)), "45");
    assert_eq!(number(&num(-0.0)), "0");
    assert_eq!(number(&num(0.0)), "0");
    assert_eq!(number(&num(72.5)), "72.5");
    assert_eq!(number(&num(0.16)), "0.16");
    assert_eq!(number(&num(-1.0)), "-1");
}

#[test]
fn large_whole_numbers_are_spelled_in_their_shortest_digits() {
    // The largest whole number that every smaller one can be told from.
    assert_eq!(number(&num(9_007_199_254_740_991.0)), "9007199254740991");
    assert_eq!(number(&num(-9_007_199_254_740_991.0)), "-9007199254740991");
    assert_eq!(number(&num(9_007_199_254_740_992.0)), "9007199254740992");
    // From there on digits that do not tell numbers apart are zeros.
    assert_eq!(number(&num(9_223_372_036_854_775_808.0)), "9223372036854776000");
    assert_eq!(number(&num(1e20)), "100000000000000000000");
    assert_eq!(number(&num(-1e20)), "-100000000000000000000");
}

#[test]
fn a_percentage_becomes_the_nearest_fraction() {
    for hundredths in -300..=10_300 {
        let percent = f64::from(hundredths) / 100.0;
        let expected = (percent / 100.0).clamp(0.0, 1.0);
        assert_eq!(from_percent(float(percent)), float(expected), "{percent}");
    }
    let mut percent = 1e-300_f64;
    while percent < 1e3 {
        let expected = (percent / 100.0).clamp(0.0, 1.0);
        assert_eq!(from_percent(float(percent)), float(expected), "{percent}");
        percent *= 1.7;
    }
    for percent in [
        f64::MIN_POSITIVE,
        f64::MIN_POSITIVE * 99.0,
        f64::MIN_POSITIVE * 100.0,
        f64::MIN_POSITIVE * 101.0,
        5e-324,
        2.5e-322,
        1e-320,
        f64::INFINITY,
        f64::NEG_INFINITY,
        f64::MAX,
        f64::MIN,
        -5e-324,
        -0.0,
        0.0,
    ] {
        let expected = (percent / 100.0).clamp(0.0, 1.0);
        assert_eq!(from_percent(float(percent)), float(expected), "{percent}");
    }
    assert!(from_percent(float(f64::NAN)).is_nan());
    // Numbers of all magnitudes, by a linear congruence over their bits.
    let mut bits: u64 = 0x9e37_79b9_7f4a_7c15;
    for _ in 0..20_000 {
        bits = bits.wrapping_mul(6_364_136_223_846_793_005).wrapping_add(1_442_695_040_888_963_407);
        let percent = f64::from_bits(bits);
        if !percent.is_nan() {
            let expected = (percent / 100.0).clamp(0.0, 1.0);
            assert_eq!(from_percent(float(percent)), float(expected), "{bits:x}");
        }
    }
}

#[test]
fn arithmetic_keeps_order() {
    let ordered = [
        f64::NEG_INFINITY,
        -1e300,
        -1.0,
        -5e-324,
        -0.0,
        5e-324,
        1e-3,
        0.1,
        1.0 / 3.0,
        1.0,
        9_007_199_254_740_993.0,
        f64::MAX,
    ];
    for low in 0..ordered.len() {
        for high in low..ordered.len() {
            for more in [0.0, 0.25, 1e16] {
                let (a, b) = (float(ordered[low]), float(ordered[high]));
                assert!(a.sum(float(more)).le(b.sum(float(more))));
                if ordered[low] >= 0.0 {
                    assert!(float(more).multiply(a).le(float(more).multiply(b)));
                }
            }
        }
    }
    for count in [0, 1, 3, 4_503_599_627_370_497, 9_007_199_254_740_991, 9_007_199_254_740_992] {
        assert_eq!(Real::of_count(count), float(count as f64));
    }
    assert_eq!(Real::of_whole(-7), float(-7.0));
    assert_eq!(Real::of_whole(i32::MIN), float(f64::from(i32::MIN)));
    assert_eq!(float(1.5).subtract(float(1.5)), float(0.0));
}

#[test]
fn numbers_become_coordinates_as_the_machine_makes_them() {
    for number in [
        0.0, -0.0, 0.5, -0.5, 1.5, 2.5, -2.5, 0.499_999_999_999_999_94, 7.000_1, -7.000_1, 41.0,
        2_147_483_646.2, 2_147_483_647.0, 2_147_483_648.5, -2_147_483_648.0, -2_147_483_649.0,
        1e300, -1e300, 5e-324, -5e-324, f64::INFINITY, f64::NEG_INFINITY, f64::NAN,
    ] {
        assert_eq!(float(number).to_index(), number.round() as i32, "{number}");
        assert_eq!(float(number).to_ceiling_index(), number.ceil() as i32, "{number}");
    }
}

#[test]
fn sums_products_and_quotients_are_rounded_as_the_machine_rounds_them() {
    let agree = |a: f64, b: f64| {
        for (found, expected) in [
            (float(a).sum(float(b)), a + b),
            (float(b).sum(float(a)), b + a),
            (float(a).divide(float(b)), a / b),
            (float(a).multiply(float(b)), a * b),
        ] {
            if expected.is_nan() {
                assert!(found.is_nan(), "{a:e} {b:e}");
            } else {
                assert_eq!(found, float(expected), "{a:e} {b:e}");
            }
        }
    };
    let samples = [
        0.0,
        1.0,
        0.1,
        0.7,
        1.0 / 3.0,
        100.0,
        5e-324,
        1e-323,
        f64::MIN_POSITIVE,
        f64::MIN_POSITIVE * 1.5,
        f64::EPSILON,
        f64::EPSILON / 2.0,
        1.0 + f64::EPSILON,
        1.0 - f64::EPSILON / 2.0,
        9_007_199_254_740_991.0,
        9_007_199_254_740_993.0,
        1e300,
        f64::MAX,
        f64::MAX / 2.0,
        f64::INFINITY,
        f64::NAN,
    ];
    for a in samples {
        for b in samples {
            for (a, b) in [(a, b), (-a, b), (a, -b), (-a, -b)] {
                agree(a, b);
            }
        }
    }
    let mut bits: u64 = 0x2545_f491_4f6c_dd1d;
    let mut draw = || {
        bits = bits.wrapping_mul(6_364_136_223_846_793_005).wrapping_add(1_442_695_040_888_963_407);
        bits ^ (bits >> 29)
    };
    for _ in 0..20_000 {
        let (a, b) = (draw(), draw());
        agree(f64::from_bits(a), f64::from_bits(b));
        // Nearby magnitudes, where sums cancel and round.
        let near = (b & 0x800f_ffff_ffff_ffff) | ((a & 0x7ff0_0000_0000_0000) ^ ((b % 64) << 52));
        agree(f64::from_bits(a), f64::from_bits(near));
        assert_eq!(Real::of_count(a), float(a as f64), "{a}");
        assert_eq!(Real::of_count(a >> (b % 64)), float((a >> (b % 64)) as f64), "{a}");
    }
}

#[test]
fn the_signature_document_spells_every_planning_input() {
    let mut challenge = definition("doc");
    challenge.robot_config.joints.truncate(1);
    challenge.robot_config.joints[0].servo = Some(ServoMapping {
        axis: ServoAxisId::B,
        center_deg: num(90.0),
        direction: -1,
        offset_deg: num(2.5),
    });
    challenge.initial_hair.voxels = vec![
        VoxelCoord { x: 2, y: 0, z: 0 },
        VoxelCoord { x: 10, y: 0, z: 0 },
    ];
    let expected = concat_all(&[
        r#"{"profileVersion":2,"plannerVersion":"cutter-grid-ladder-v2","ladder":"#,
        r#"{"candidateSeedBudgets":[24,96,384],"candidateDeduplicationDistance":0.01,"#,
        r#""candidateLimit":128,"entryOptionLimit":32,"edgeMaximumJointDeltaDeg":0.5,"#,
        r#""edgeMaximumEndEffectorDistanceDivisor":16,"entryPrmHaltonNodes":[2048,8192],"#,
        r#""entryPrmNeighbors":24},"joints":[{"id":"baseYaw","axis":"y","minAngleDeg":-60,"#,
        r#""maxAngleDeg":60,"initialAngleDeg":-45,"speedDegPerSec":60,"#,
        r#""servo":{"axis":"B","centerDeg":90,"direction":-1,"offsetDeg":2.5}}],"#,
        r#""geometry":{"basePosition":[0,0,0],"shoulderHeight":0.4,"upperArmLength":1.05,"#,
        r#""forearmLength":0.9,"toolLength":0.35,"toolRadius":0.12,"#,
        r#""collision":{"linkRadius":0.075,"jointRadius":0.18,"toolShaftRadius":0.075,"#,
        r#""headClearance":0.02}},"voxelConfig":{"origin":[1.35,1.5,0],"size":0.16,"#,
        r#""headCenter":[1.35,1.42,0],"headScale":[0.68,0.86,0.68]},"#,
        r#""initialHair":["10,0,0","2,0,0"],"targetHair":[],"cutterRadius":0.12}"#,
    ]);
    assert_eq!(signature_document(&challenge), expected);
    assert_eq!(cutter_grid_challenge_signature_v2(&challenge), fnv1a64(&expected));
}

fn concat_all(parts: &[&str]) -> String {
    let mut out = String::new();
    for part in parts {
        out.push_str(part);
    }
    out
}

#[test]
fn joint_ids_are_escaped_in_the_signature_document() {
    let mut challenge = definition("escape");
    challenge.robot_config.joints.truncate(1);
    challenge.robot_config.joints[0].id = "a\"b\\c\n\u{1}".to_string();
    let document = signature_document(&challenge);
    assert!(document.contains(r#"{"id":"a\"b\\c\n\u0001","axis""#), "{document}");
    challenge.robot_config.joints[0].id = "\u{8}x\u{c}y\r\t\u{b}\u{1f}\u{7f}\u{1F488}".to_string();
    let document = signature_document(&challenge);
    let id = "\\bx\\fy\\r\\t\\u000b\\u001f\u{7f}\u{1F488}";
    assert!(document.contains(&format!("{{\"id\":\"{id}\",\"axis\"")), "{document}");
}

#[test]
fn escaped_texts_are_written_side_by_side() {
    let (first, second) = ("say \"hi\"\n", "\u{8}\\end\u{2}");
    let mut apart = "before:".to_string();
    write_escaped(&mut apart, first);
    write_escaped(&mut apart, second);
    let mut joined = "before:".to_string();
    write_escaped(&mut joined, &format!("{first}{second}"));
    assert_eq!(apart, joined);
    assert_eq!(joined, "before:say \\\"hi\\\"\\n\\b\\\\end\\u0002");
    let mut plain = String::new();
    write_escaped(&mut plain, "plain / caf\u{e9}");
    assert_eq!(plain, "plain / caf\u{e9}");
}

#[test]
fn widening_a_joint_range_changes_the_signature() {
    let challenge = definition("range");
    let before = cutter_grid_challenge_signature_v2(&challenge);

    let mut widened = challenge;
    widened.robot_config.joints[0].max_angle_deg = num(61.0);
    let after = cutter_grid_challenge_signature_v2(&widened);

    assert_ne!(before, after);
}

#[test]
fn the_order_of_the_cells_does_not_move_the_signature() {
    let mut challenge = definition("order");
    let (a, b, c) = (
        VoxelCoord { x: 1, y: 2, z: 3 },
        VoxelCoord { x: -1, y: 0, z: 0 },
        VoxelCoord { x: 12, y: 0, z: 0 },
    );
    challenge.initial_hair.voxels = vec![a, b, c];
    let first = cutter_grid_challenge_signature_v2(&challenge);
    challenge.initial_hair.voxels = vec![c, a, b];
    assert_eq!(cutter_grid_challenge_signature_v2(&challenge), first);
}

#[test]
fn the_name_of_a_joint_is_not_signed() {
    let mut challenge = definition("name");
    let first = cutter_grid_challenge_signature_v2(&challenge);
    challenge.robot_config.joints[0].name = "Turntable".to_string();
    assert_eq!(cutter_grid_challenge_signature_v2(&challenge), first);
}

#[test]
fn only_some_failures_are_worth_retrying() {
    for code in
        [HcrErrorCode::RateLimited, HcrErrorCode::ReplayTimeout, HcrErrorCode::MatchNotReady]
    {
        assert!(code.retryable(), "{code:?}");
    }
    for code in [
        HcrErrorCode::Unauthorized,
        HcrErrorCode::ProgramInvalid,
        HcrErrorCode::ItemRefInvalid,
        HcrErrorCode::SessionNotFound,
        HcrErrorCode::TrajectoryRejected,
    ] {
        assert!(!code.retryable(), "{code:?}");
    }
    let failure = HcrError::new(HcrErrorCode::RateLimited, "slow down".to_string())
        .with_field("program".to_string());
    assert!(failure.retryable);
    assert_eq!(failure.field.as_deref(), Some("program"));
    assert!(failure.details.is_none());
}

#[test]
fn envelopes_carry_the_protocol_version_and_correlate() {
    let envelope: Envelope<u8> = Envelope::new("m-2".to_string(), "state".to_string(), 7, 9);
    assert_eq!(envelope.v, PROTOCOL_VERSION);
    assert!(envelope.corr.is_none());
    let reply = envelope.correlate("m-1".to_string());
    assert_eq!(reply.corr.as_deref(), Some("m-1"));
    assert_eq!(reply.ts, 7);
    assert_eq!(reply.payload, 9);
}

#[test]
fn compact_ptp_planning_failure_preserves_block_and_coordinate_context() {
    let failure = ServiceError::TrajectoryPlanningFailed {
        planner_code: CutterGridPlanningErrorCodeV4::EndpointPtpDisconnected,
        stage: CutterGridPlanningStageV4::PtpEdge,
        field: Some("forward-3".to_string()),
        action_index: Some(2),
        expanded_action_index: Some(2),
        target_coord: Some([-2, 6, -3]),
    };

    let wire = failure.to_wire();
    assert_eq!(wire.code, HcrErrorCode::TrajectoryPlanningFailed);
    assert_eq!(wire.field.as_deref(), Some("forward-3"));
    let details = wire.details.expect("planning diagnostics");
    let detail = |key: &str| {
        details.iter().find(|(name, _)| name == key).map(|(_, value)| value.as_str())
    };
    assert_eq!(detail("plannerCode"), Some("endpoint-ptp-disconnected"));
    assert_eq!(detail("stage"), Some("ptp-edge"));
    assert_eq!(detail("actionIndex"), Some("2"));
    assert_eq!(detail("expandedActionIndex"), Some("2"));
    assert_eq!(detail("targetCoord"), Some("-2,6,-3"));
}

#[test]
fn a_planning_failure_leaves_out_what_it_does_not_know() {
    let failure = ServiceError::TrajectoryPlanningFailed {
        planner_code: CutterGridPlanningErrorCodeV4::PlannerNotReady,
        stage: CutterGridPlanningStageV4::Profile,
        field: None,
        action_index: None,
        expanded_action_index: None,
        target_coord: None,
    };
    let wire = failure.to_wire();
    assert!(wire.field.is_none());
    let details = wire.details.expect("planning diagnostics");
    assert_eq!(details.len(), 2);
}

#[test]
fn every_service_error_has_its_code() {
    let pairs = [
        (
            ServiceError::ChallengeNotFound { challenge_id: "x".to_string(), version: Some(2) },
            HcrErrorCode::ChallengeNotFound,
        ),
        (
            ServiceError::ProgramInvalid { message: "m".to_string(), field: None },
            HcrErrorCode::ProgramInvalid,
        ),
        (ServiceError::ProgramTooLarge { limit: 500 }, HcrErrorCode::ProgramTooLarge),
        (ServiceError::WeightsInvalid("w"), HcrErrorCode::WeightsInvalid),
        (
            ServiceError::TrajectoryRejected {
                rejection: "r".to_string(),
                message: "m".to_string(),
                field: None,
            },
            HcrErrorCode::TrajectoryRejected,
        ),
        (ServiceError::ItemRefInvalid("bad"), HcrErrorCode::ItemRefInvalid),
        (ServiceError::SessionNotFound("s".to_string()), HcrErrorCode::SessionNotFound),
        (ServiceError::SessionTerminated, HcrErrorCode::SessionTerminated),
        (ServiceError::SessionNotAwaitingResponse, HcrErrorCode::SessionTerminated),
        (ServiceError::MatchNotReady("m"), HcrErrorCode::MatchNotReady),
        (ServiceError::BankExhausted, HcrErrorCode::BankExhausted),
        (ServiceError::RateLimited, HcrErrorCode::RateLimited),
        (ServiceError::ReplayTimeout, HcrErrorCode::ReplayTimeout),
        (ServiceError::Internal("i"), HcrErrorCode::Internal),
    ];
    for (error, code) in pairs {
        assert_eq!(error.code(), code, "{error:?}");
        let wire = error.to_wire();
        assert_eq!(wire.code, code);
        assert_eq!(wire.message, error.message());
        assert_eq!(wire.retryable, code.retryable());
    }
}

#[test]
fn an_engine_failure_becomes_a_service_error() {
    assert_eq!(
        ServiceError::from_sim(SimError::CommandLimitExceeded { limit: 500 }),
        ServiceError::ProgramTooLarge { limit: 500 }
    );
    assert_eq!(ServiceError::from_sim(SimError::BudgetExhausted), ServiceError::ReplayTimeout);
    assert_eq!(
        ServiceError::from_sim(SimError::InvalidScoring("weights")),
        ServiceError::WeightsInvalid("weights")
    );
    assert_eq!(
        ServiceError::from_sim(SimError::Internal("engine")),
        ServiceError::Internal("engine")
    );
    match ServiceError::from_sim(SimError::UnknownJoint {
        joint_id: "elbow2".to_string(),
        message: "unknown joint elbow2".to_string(),
    }) {
        ServiceError::ProgramInvalid { message, field } => {
            assert_eq!(message, "unknown joint elbow2");
            assert_eq!(field.as_deref(), Some("elbow2"));
        }
        other => panic!("{other:?}"),
    }
}

#[test]
fn a_coordinate_key_joins_the_three_components() {
    assert_eq!(coord_key(-2, 6, -3), "-2,6,-3");
    assert_eq!(coord_key(0, 0, 0), "0,0,0");
}

#[test]
fn a_coordinate_key_reads_back() {
    for (x, y, z) in [(0, 0, 0), (-2, 6, -3), (i32::MIN, i32::MAX, 10)] {
        assert_eq!(read_coord(&coord_key(x, y, z)), Some(VoxelCoord { x, y, z }));
    }
    assert_eq!(read_coord("+1,007,-0"), Some(VoxelCoord { x: 1, y: 7, z: 0 }));
    for bad in ["", ",,", "1,2", "1,2,3,", "1,2,3,4", "1, 2,3", "a,b,c", "2147483648,0,0", "--1,0,0"] {
        assert_eq!(read_coord(bad), None, "{bad:?}");
    }
    for text in ["", "-", "+", "-+1", "+-1", "-2147483648", "-2147483649", "2147483647", "12x", "\u{663}"] {
        assert_eq!(parse_i32(text), text.parse::<i32>().ok(), "{text:?}");
    }
}

#[test]
fn provisional_items_do_not_measure() {
    let meta = ChallengeMeta::provisional(3, float(0.75));
    assert_eq!(meta.version, 3);
    assert_eq!(meta.irt.difficulty, float(0.75));
    assert_eq!(meta.calibration, CalibrationState::Provisional);
    assert_eq!(meta.response_count, 0);
    assert!(!meta.calibration.usable_for_measurement());
    assert!(meta.calibration.servable());
    assert!(meta.supports(ProgrammingMode::Servo));
    assert!(!meta.supports(ProgrammingMode::CutterGrid));
    assert!(!CalibrationState::Retired.servable());
    assert!(CalibrationState::Calibrated.usable_for_measurement());
    assert_eq!(ItemParameters::provisional(float(-1.0)).discrimination, float(1.0));
}

#[test]
fn the_five_skills_have_distinct_names() {
    let names: Vec<&str> = SkillDimension::all().iter().map(|skill| skill.as_str()).collect();
    assert_eq!(names, ["kinematics", "sequencing", "iteration", "precision", "safety"]);
}

#[test]
fn a_completed_run_names_no_joint() {
    let terminal = Terminal::completed();
    assert_eq!(terminal.reason, TerminalReason::Completed);
    assert!(terminal.joint_id.is_none());
    assert!(terminal.source_block_id.is_none());
    let metrics = ProgramMetrics::default();
    assert_eq!(metrics.source_block_count, 0);
    assert_eq!(metrics.estimated_duration_ms, float(0.0));
}

#[test]
fn reals_order_as_the_machine_orders_them() {
    let samples = [
        f64::NEG_INFINITY,
        -1.5,
        -0.0,
        0.0,
        5e-324,
        0.5,
        1.0,
        1e300,
        f64::INFINITY,
        f64::NAN,
    ];
    for a in samples {
        for b in samples {
            assert_eq!(float(a).lt(float(b)), a < b, "{a} < {b}");
            assert_eq!(float(a).le(float(b)), a <= b, "{a} <= {b}");
            assert_eq!(float(a).same(float(b)), a == b, "{a} == {b}");
        }
        assert_eq!(float(a).is_nan(), a.is_nan());
        assert_eq!(float(a).is_finite(), a.is_finite());
        assert_eq!(float(a).abs().bits, a.abs().to_bits());
        assert_eq!(float(a).neg().bits, (-a).to_bits());
    }
    assert_eq!(float(3.0).clamp(float(-4.0), float(2.0)), float(2.0));
    assert_eq!(float(-5.0).clamp(float(-4.0), float(2.0)), float(-4.0));
    assert!(float(f64::NAN).clamp(float(0.0), float(1.0)).is_nan());
}

#[test]
fn whole_parts_agree_with_the_machine() {
    for value in [
        0.0, 0.49, 0.5, 0.99, 1.0, 1.5, 2.5, 7.0, 123_456.75, 4_503_599_627_370_497.0, 1e18, 1e300,
        -1.0, -0.6, -2.5, 1e-320,
    ] {
        assert_eq!(float(value).truncate(), value.abs() as u64, "{value}");
        assert_eq!(float(value).round(), value.abs().round() as u64, "{value}");
        assert_eq!(float(value).is_whole(), value.fract() == 0.0, "{value}");
    }
}

#[test]
fn numbers_are_spelled_in_full() {
    let mut out = String::new();
    push_decimal(&mut out, 0);
    out.push(' ');
    push_decimal(&mut out, u64::MAX);
    out.push(' ');
    push_integer(&mut out, i64::MIN);
    out.push(' ');
    push_hex(&mut out, 0xbeef, 6);
    assert_eq!(out, "0 18446744073709551615 -9223372036854775808 00beef");
    assert_eq!(hex_of_bytes(&[0, 15, 255]), "000fff");
}

#[test]
fn versions_are_read_as_plain_decimals() {
    assert_eq!(parse_u32("0"), Some(0));
    assert_eq!(parse_u32("4294967295"), Some(u32::MAX));
    assert_eq!(parse_u32("4294967296"), None);
    assert_eq!(parse_u32("+7"), Some(7));
    assert_eq!(parse_u32("007"), Some(7));
    for text in ["", "+", "-1", " 1", "1.0", "x"] {
        assert_eq!(parse_u32(text), text.parse::<u32>().ok(), "{text:?}");
    }
}

#[test]
fn text_is_cut_and_compared_as_the_standard_library_does() {
    assert_eq!(split("a,,b", ','), vec!["a", "", "b"]);
    assert_eq!(split("", ','), vec![""]);
    for text in ["  a b ", "\u{3000}x\u{2003}", "", " \t\n", "plain"] {
        assert_eq!(trim(text), text.trim());
    }
    for c in ['\u{85}', '\u{a0}', ' ', 'a', '\u{200b}', '\u{2028}', '\u{202f}'] {
        assert_eq!(is_white_space(c), c.is_whitespace(), "{c:?}");
        assert_eq!(ascii_lower(c), c.to_ascii_lowercase());
    }
    assert!(same("abc", "abc") && !same("abc", "abd"));
    assert!(less("10", "2") && !less("2", "10") && less("", "a"));
    assert!(same_ignoring_ascii_case("Content-Type", "content-type"));
    assert!(!same_ignoring_ascii_case("a", "ab"));
}

#[test]
fn a_text_map_holds_one_value_per_key() {
    let mut map: TextMap<u32> = TextMap::new();
    map.insert("a".to_string(), 1);
    map.insert("b".to_string(), 2);
    map.insert("a".to_string(), 3);
    assert_eq!(map.len(), 2);
    assert_eq!(map.get("a"), Some(&3));
    let copy = map.clone();
    assert_eq!(map.remove("a"), Some(3));
    assert_eq!(map.remove("a"), None);
    assert!(!map.contains_key("a"));
    assert!(copy.contains_key("a"));
    map.clear();
    assert_eq!(map.len(), 0);
}
