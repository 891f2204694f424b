//! Reference solutions and starter programs for generated challenges.
//!
//! The target of a generated challenge is what a reference program leaves
//! standing, so the item is winnable by construction. The starter is the
//! reference with its carving moves withheld: the tool ends up over the crown,
//! and the learner supplies the sweeps that do the cutting.
//!
//! Deriving the aim is arithmetic; deriving a safe program is not. Every
//! candidate is replayed, and the longest prefix that runs to completion is kept.

use crate::domain::{law_servo_degrees_convert_back, JointConfig, Program, ProgramNode, TerminalReason, VoxelCoord};
use crate::number::Real;
use crate::rounding::{
    law_counts_are_exact, law_encodings_of_whole_numbers, law_equal_values_rank_alike,
    law_whole_numbers_are_added_exactly, law_whole_numbers_are_multiplied_exactly,
};
use crate::text::{decimal_text, push_decimal, same};
use crate::voxels::{in_order, VoxelSet};
use vstd::arithmetic::power2::pow2;
use vstd::prelude::*;

verus! {

/// Joint the sweep drives.
pub const SWEEP_JOINT: &'static str = "baseYaw";

/// Joint lowered between passes so a second sweep cuts at a different height.
pub const HEIGHT_JOINT: &'static str = "shoulder";

/// Upper bound on passes, so a deep trim cannot produce a program longer than a
/// learner could plausibly rebuild.
pub const MAX_PASSES: u32 = 4;

/// How many joints the pose over the crown sets.
pub const POSE_JOINTS: usize = 4;

/// The joint that a step of the pose over the crown sets.
pub open spec fn pose_joint_text(step: int) -> Seq<char> {
    if step == 0 {
        "shoulderRoll"@
    } else if step == 1 {
        "shoulder"@
    } else if step == 2 {
        "elbow"@
    } else {
        "wrist"@
    }
}

/// The joint that a step of the pose over the crown sets.
pub fn pose_joint(step: usize) -> (r: &'static str)
    ensures
        r@ == pose_joint_text(step as int),
{
    if step == 0 {
        "shoulderRoll"
    } else if step == 1 {
        "shoulder"
    } else if step == 2 {
        "elbow"
    } else {
        "wrist"
    }
}

/// Whether one of some joints has an identity.
pub open spec fn has_joint(joints: Seq<JointConfig>, id: Seq<char>) -> bool {
    exists|i: int| 0 <= i < joints.len() && (#[trigger] joints[i]).id@ == id
}

/// Whether a joint is the first of some with its identity.
pub open spec fn is_joint(joints: Seq<JointConfig>, id: Seq<char>, i: int) -> bool {
    &&& 0 <= i < joints.len()
    &&& joints[i].id@ == id
    &&& forall|j: int| 0 <= j < i ==> (#[trigger] joints[j]).id@ != id
}

/// The first joint of an identity.
pub fn find_joint<'a>(joints: &'a [JointConfig], joint_id: &str) -> (r: Option<&'a JointConfig>)
    ensures
        match r {
            Some(joint) => exists|i: int| #[trigger] is_joint(joints@, joint_id@, i) && *joint == joints@[i],
            None => !has_joint(joints@, joint_id@),
        },
{
    for i in 0..joints.len()
        invariant
            forall|j: int| 0 <= j < i ==> (#[trigger] joints@[j]).id@ != joint_id@,
    {
        if same(joints[i].id.as_str(), joint_id) {
            assert(is_joint(joints@, joint_id@, i as int));
            return Some(&joints[i]);
        }
    }
    None
}

/// One `set joint angle` block.
#[derive(Debug, PartialEq, Eq)]
pub struct Block {
    /// Editor identity.
    pub block_id: String,
    /// Joint to drive.
    pub joint_id: String,
    /// Absolute angle, in the units a program carries.
    pub angle: Real,
}

/// One block, by value.
pub struct BlockView {
    /// Editor identity.
    pub block_id: Seq<char>,
    /// Joint to drive.
    pub joint_id: Seq<char>,
    /// Absolute angle.
    pub angle: Real,
}

impl View for Block {
    type V = BlockView;

    open spec fn view(&self) -> BlockView {
        BlockView { block_id: self.block_id@, joint_id: self.joint_id@, angle: self.angle }
    }
}

/// Some blocks, by value.
pub open spec fn blocks_view(blocks: Seq<Block>) -> Seq<BlockView> {
    Seq::new(blocks.len(), |i: int| blocks[i]@)
}

/// The angles of a reference solution, in the units a program carries.
#[derive(Clone, Copy, Debug)]
pub struct Placement {
    /// Angle of each joint of the pose over the crown.
    pub pose: [Real; 4],
    /// Where the first sweep starts.
    pub from: Real,
    /// Where it ends.
    pub to: Real,
    /// Angle of the height joint before each pass.
    pub heights: [Real; 4],
}

/// The blocks of the first steps of the pose: those whose joint the arm has.
pub open spec fn pose_blocks(joints: Seq<JointConfig>, pose: Seq<Real>, steps: int) -> Seq<BlockView>
    decreases steps,
{
    if steps <= 0 {
        Seq::empty()
    } else {
        let before = pose_blocks(joints, pose, steps - 1);
        let joint = pose_joint_text(steps - 1);
        if has_joint(joints, joint) {
            before.push(
                BlockView { block_id: "starter-"@ + joint, joint_id: joint, angle: pose[steps - 1] },
            )
        } else {
            before
        }
    }
}

/// The block that changes height before a pass.
pub open spec fn height_block(placement: Placement, pass: int) -> BlockView {
    BlockView {
        block_id: "reference-height-"@ + decimal_text(pass as nat),
        joint_id: HEIGHT_JOINT@,
        angle: placement.heights@[pass],
    }
}

/// A block of the sweep of a pass. Passes alternate direction, so that one
/// retraces the arc of the one before.
pub open spec fn sweep_block(placement: Placement, pass: int, second: bool) -> BlockView {
    BlockView {
        block_id: "reference-sweep-"@ + decimal_text(pass as nat) + (if second {
            "-b"@
        } else {
            "-a"@
        }),
        joint_id: SWEEP_JOINT@,
        angle: if (pass % 2 == 0) != second {
            placement.from
        } else {
            placement.to
        },
    }
}

/// A reference solution up to a pass.
pub open spec fn reference_blocks(joints: Seq<JointConfig>, placement: Placement, passes: int) -> Seq<
    BlockView,
>
    decreases passes,
{
    if passes <= 0 {
        pose_blocks(joints, placement.pose@, POSE_JOINTS as int)
    } else {
        let before = reference_blocks(joints, placement, passes - 1);
        let lowered = if passes > 1 && has_joint(joints, HEIGHT_JOINT@) {
            before.push(height_block(placement, passes - 1))
        } else {
            before
        };
        lowered.push(sweep_block(placement, passes - 1, false)).push(
            sweep_block(placement, passes - 1, true),
        )
    }
}

/// How many passes a reference makes: at least one, and no more than a learner
/// could rebuild.
pub open spec fn passes_made(passes: u32) -> int {
    if passes < 1 {
        1
    } else if passes > MAX_PASSES {
        MAX_PASSES as int
    } else {
        passes as int
    }
}

fn pose_list(joints: &[JointConfig], placement: &Placement) -> (blocks: Vec<Block>)
    ensures
        blocks_view(blocks@) == pose_blocks(joints@, placement.pose@, POSE_JOINTS as int),
        blocks@.len() <= POSE_JOINTS,
{
    let mut blocks: Vec<Block> = Vec::new();
    assert(blocks_view(blocks@) =~= Seq::<BlockView>::empty());
    for step in 0..POSE_JOINTS
        invariant
            blocks_view(blocks@) == pose_blocks(joints@, placement.pose@, step as int),
            blocks@.len() <= step,
    {
        let joint = pose_joint(step);
        if find_joint(joints, joint).is_some() {
            let ghost before = blocks@;
            let mut block_id: String = "starter-".to_owned();
            block_id.append(joint);
            let block = Block { block_id, joint_id: joint.to_owned(), angle: placement.pose[step] };
            let ghost shown = block@;
            assert(shown == BlockView {
                block_id: "starter-"@ + joint@,
                joint_id: joint@,
                angle: placement.pose@[step as int],
            });
            blocks.push(block);
            assert(blocks_view(blocks@) =~= blocks_view(before).push(shown));
        }
    }
    blocks
}

fn push_block(blocks: &mut Vec<Block>, block: Block)
    ensures
        blocks_view(final(blocks)@) == blocks_view(old(blocks)@).push(block@),
        final(blocks)@.len() == old(blocks)@.len() + 1,
{
    let ghost before = blocks@;
    let ghost shown = block@;
    blocks.push(block);
    assert(blocks_view(blocks@) =~= blocks_view(before).push(shown));
}

fn sweep(placement: &Placement, pass: u32, second: bool) -> (r: Block)
    ensures
        r@ == sweep_block(*placement, pass as int, second),
{
    let mut block_id: String = "reference-sweep-".to_owned();
    push_decimal(&mut block_id, pass as u64);
    block_id.append(
        if second {
            "-b"
        } else {
            "-a"
        },
    );
    let angle = if (pass % 2 == 0) != second {
        placement.from
    } else {
        placement.to
    };
    Block { block_id, joint_id: SWEEP_JOINT.to_owned(), angle }
}

/// The program that blocks describe.
pub open spec fn is_program_of(program: Program, blocks: Seq<BlockView>) -> bool {
    &&& program.source_block_count == blocks.len() as u32
    &&& program.nodes@.len() == blocks.len()
    &&& forall|i: int|
        0 <= i < blocks.len() ==> (#[trigger] program.nodes@[i] matches ProgramNode::SetJointAngle {
            joint_id,
            angle_deg,
            source_block_id,
        } && joint_id@ == blocks[i].joint_id && angle_deg == blocks[i].angle && source_block_id@
            == blocks[i].block_id)
}

/// The program that blocks describe.
pub fn to_program(blocks: &[Block]) -> (r: Program)
    ensures
        is_program_of(r, blocks_view(blocks@)),
{
    let mut nodes: Vec<ProgramNode> = Vec::new();
    for i in 0..blocks.len()
        invariant
            nodes@.len() == i,
            forall|j: int|
                0 <= j < i ==> (#[trigger] nodes@[j] matches ProgramNode::SetJointAngle {
                    joint_id,
                    angle_deg,
                    source_block_id,
                } && joint_id@ == blocks@[j].joint_id@ && angle_deg == blocks@[j].angle
                    && source_block_id@ == blocks@[j].block_id@),
    {
        nodes.push(
            ProgramNode::SetJointAngle {
                joint_id: blocks[i].joint_id.clone(),
                angle_deg: blocks[i].angle,
                source_block_id: blocks[i].block_id.clone(),
            },
        );
    }
    Program { nodes, source_block_count: blocks.len() as u32 }
}

/// A block as the editor's workspace holds it: with those below it chained
/// behind.
#[derive(Debug)]
pub struct WorkspaceBlock {
    /// The block itself.
    pub block: Block,
    /// What is chained behind it.
    pub next: Option<Box<WorkspaceBlock>>,
}

/// The blocks of a chain, from the top.
pub open spec fn chain_view(chain: Option<Box<WorkspaceBlock>>) -> Seq<BlockView>
    decreases chain,
{
    match chain {
        None => Seq::empty(),
        Some(top) => seq![top.block@] + chain_view(top.next),
    }
}

/// Chain blocks into a workspace, the first on top.
fn to_workspace(blocks: &[Block], count: usize) -> (r: Option<Box<WorkspaceBlock>>)
    requires
        count <= blocks@.len(),
    ensures
        chain_view(r) == blocks_view(blocks@).take(count as int),
        r is Some <==> count > 0,
{
    let mut chained: Option<Box<WorkspaceBlock>> = None;
    let mut left: usize = count;
    assert(chain_view(chained) =~= blocks_view(blocks@).subrange(count as int, count as int));
    while left > 0
        invariant
            left <= count <= blocks@.len(),
            chain_view(chained) == blocks_view(blocks@).subrange(left as int, count as int),
            chained is Some <==> left < count,
        decreases left,
    {
        let ghost below = chain_view(chained);
        left = left - 1;
        let shown = &blocks[left];
        let block = Block {
            block_id: shown.block_id.clone(),
            joint_id: shown.joint_id.clone(),
            angle: shown.angle,
        };
        chained = Some(Box::new(WorkspaceBlock { block, next: chained }));
        assert(chain_view(chained) == seq![blocks@[left as int]@] + below);
        assert(seq![blocks@[left as int]@] + below =~= blocks_view(blocks@).subrange(
            left as int,
            count as int,
        ));
    }
    assert(blocks_view(blocks@).subrange(0, count as int) =~= blocks_view(blocks@).take(
        count as int,
    ));
    chained
}

/// A program that solves an item, and the hair it leaves standing.
#[derive(Debug)]
pub struct ReferenceRun {
    blocks: Vec<Block>,
    remaining: Vec<VoxelCoord>,
    positioning: usize,
}

impl ReferenceRun {
    #[verifier::type_invariant]
    spec fn wf(self) -> bool {
        in_order(self.remaining@)
    }

    /// The blocks of the solution.
    pub closed spec fn solution(self) -> Seq<BlockView> {
        blocks_view(self.blocks@)
    }

    /// How many of the leading blocks merely position the tool.
    pub closed spec fn leading(self) -> nat {
        self.positioning as nat
    }

    /// The hair left standing.
    pub closed spec fn standing(self) -> Seq<VoxelCoord> {
        self.remaining@
    }

    /// Hair remaining once the reference has run, in order and no cell twice: the
    /// item's target.
    pub fn remaining(&self) -> (r: &Vec<VoxelCoord>)
        ensures
            r@ == self.standing(),
            in_order(r@),
    {
        proof {
            use_type_invariant(self);
        }
        &self.remaining
    }

    /// The solution itself, as a program.
    pub fn program(&self) -> (r: Program)
        ensures
            is_program_of(r, self.solution()),
    {
        to_program(self.blocks.as_slice())
    }

    /// How many blocks the starter shows: positioning only, with the carving
    /// withheld.
    pub open spec fn visible(self) -> nat {
        if self.leading() < self.solution().len() {
            self.leading()
        } else {
            self.solution().len()
        }
    }

    /// The starter workspace: the visible blocks, chained in their order. There
    /// is none where nothing is visible.
    pub fn starter_workspace(&self) -> (r: Option<Box<WorkspaceBlock>>)
        ensures
            chain_view(r) == self.solution().take(self.visible() as int),
            r is Some <==> self.visible() > 0,
    {
        let count: usize = if self.positioning < self.blocks.len() {
            self.positioning
        } else {
            self.blocks.len()
        };
        to_workspace(self.blocks.as_slice(), count)
    }

    /// Whether the reference actually cuts anything.
    pub fn removes_any(&self, initial_len: usize) -> (r: bool)
        ensures
            r == (self.standing().len() < initial_len),
    {
        self.remaining.len() < initial_len
    }

    /// Whether a replay of the reference against the finished challenge is a
    /// perfect solution: it ran to completion, and its completion score is off
    /// the full hundred by less than a millionth.
    pub fn solves(reason: TerminalReason, completion_score: Real) -> (r: bool)
        ensures
            r == (reason == TerminalReason::Completed && completion_score.plus(
                Real { bits: 0xc059_0000_0000_0000 },
            ).absolute().below(Real { bits: 0x3eb0_c6f7_a0b5_ed8d })),
    {
        let hundred = Real { bits: 0x4059_0000_0000_0000 };
        let shortfall = completion_score.subtract(hundred).abs();
        reason == TerminalReason::Completed && shortfall.lt(Real { bits: 0x3eb0_c6f7_a0b5_ed8d })
    }
}

/// The search for the longest prefix of a reference that runs to completion.
#[derive(Debug)]
pub struct ReferenceSearch {
    blocks: Vec<Block>,
    positioning: usize,
}

/// Where a search stands after a replay.
#[derive(Debug)]
pub enum SearchStep {
    /// The replayed prefix completed.
    Found(ReferenceRun),
    /// It did not; a shorter one is next.
    Retry(ReferenceSearch),
}

impl ReferenceSearch {
    /// The prefix to replay next.
    pub closed spec fn prefix(self) -> Seq<BlockView> {
        blocks_view(self.blocks@)
    }

    /// How many of the leading blocks merely position the tool.
    pub closed spec fn leading(self) -> nat {
        self.positioning as nat
    }

    /// Build the full reference. There is none for an arm without any joint of
    /// the pose, or when the sweep cannot be aimed.
    pub fn new(joints: &[JointConfig], placement: Option<Placement>, passes: u32) -> (r: Option<
        ReferenceSearch,
    >)
        ensures
            r is Some <==> placement is Some && exists|step: int|
                0 <= step < POSE_JOINTS && has_joint(joints@, #[trigger] pose_joint_text(step)),
            r matches Some(search) ==> {
                &&& search.prefix() == reference_blocks(joints@, placement->0, passes_made(passes))
                &&& search.leading() == pose_blocks(
                    joints@,
                    placement->0.pose@,
                    POSE_JOINTS as int,
                ).len()
                &&& search.leading() > 0
            },
    {
        let placement = match placement {
            Some(placement) => placement,
            None => {
                return None;
            },
        };
        let mut blocks = pose_list(joints, &placement);
        proof {
            lemma_pose_is_empty_without_joints(joints@, placement.pose@, POSE_JOINTS as int);
        }
        if blocks.len() == 0 {
            return None;
        }
        let positioning: usize = blocks.len();
        let lowers = find_joint(joints, HEIGHT_JOINT).is_some();
        let count: u32 = if passes < 1 {
            1
        } else if passes > MAX_PASSES {
            MAX_PASSES
        } else {
            passes
        };
        for pass in 0..count
            invariant
                count <= MAX_PASSES,
                lowers == has_joint(joints@, HEIGHT_JOINT@),
                blocks_view(blocks@) == reference_blocks(joints@, placement, pass as int),
        {
            if pass > 0 && lowers {
                let mut block_id: String = "reference-height-".to_owned();
                push_decimal(&mut block_id, pass as u64);
                let block = Block {
                    block_id,
                    joint_id: HEIGHT_JOINT.to_owned(),
                    angle: placement.heights[pass as usize],
                };
                assert(block@ == height_block(placement, pass as int));
                push_block(&mut blocks, block);
            }
            push_block(&mut blocks, sweep(&placement, pass, false));
            push_block(&mut blocks, sweep(&placement, pass, true));
        }
        Some(ReferenceSearch { blocks, positioning })
    }

    /// The program to replay next; none once only positioning is left.
    pub fn candidate(&self) -> (r: Option<Program>)
        ensures
            match r {
                Some(program) => self.prefix().len() > self.leading() && is_program_of(
                    program,
                    self.prefix(),
                ),
                None => self.prefix().len() <= self.leading(),
            },
    {
        if self.blocks.len() > self.positioning {
            Some(to_program(self.blocks.as_slice()))
        } else {
            None
        }
    }

    /// Report how the replay ended and what it left standing, if it ran at all. Only
    /// one that ran to completion is a reference solution: of a sweep that is stopped,
    /// the target would encode a run that failed.
    pub fn report(self, replay: Option<(TerminalReason, Vec<VoxelCoord>)>) -> (r: SearchStep)
        requires
            self.prefix().len() > 0,
        ensures
            match replay {
                Some((TerminalReason::Completed, cells)) => r matches SearchStep::Found(run)
                    && run.solution() == self.prefix() && run.leading() == self.leading() && in_order(
                    run.standing(),
                ) && run.standing().to_set() == cells@.to_set(),
                _ => r matches SearchStep::Retry(search) && search.prefix()
                    == self.prefix().drop_last() && search.leading() == self.leading(),
            },
    {
        match replay {
            Some((TerminalReason::Completed, cells)) => {
                let set = VoxelSet::of(cells.as_slice());
                let listed = set.cells();
                let mut remaining: Vec<VoxelCoord> = Vec::new();
                for i in 0..listed.len()
                    invariant
                        remaining@ == listed@.take(i as int),
                {
                    remaining.push(listed[i]);
                }
                assert(remaining@ =~= listed@);
                SearchStep::Found(
                    ReferenceRun { blocks: self.blocks, remaining, positioning: self.positioning },
                )
            },
            _ => {
                let ghost before = self.blocks@;
                let mut blocks = self.blocks;
                let positioning: usize = self.positioning;
                blocks.pop();
                assert(blocks_view(blocks@) =~= blocks_view(before).drop_last());
                SearchStep::Retry(ReferenceSearch { blocks, positioning })
            },
        }
    }
}

proof fn lemma_pose_is_empty_without_joints(joints: Seq<JointConfig>, pose: Seq<Real>, steps: int)
    requires
        0 <= steps <= POSE_JOINTS,
    ensures
        pose_blocks(joints, pose, steps).len() > 0 <==> exists|step: int|
            0 <= step < steps && has_joint(joints, #[trigger] pose_joint_text(step)),
    decreases steps,
{
    if steps > 0 {
        lemma_pose_is_empty_without_joints(joints, pose, steps - 1);
        let last = pose_joint_text(steps - 1);
        if has_joint(joints, last) {
            assert(0 <= steps - 1 < steps && has_joint(joints, pose_joint_text(steps - 1)));
        }
    }
}

/// The run a search ends with, if `completes` says which programs run to
/// completion: a prefix that does not is followed by one a block shorter, until
/// only positioning is left.
pub open spec fn search_outcome(
    prefix: Seq<BlockView>,
    leading: nat,
    completes: spec_fn(Seq<BlockView>) -> bool,
) -> Option<Seq<BlockView>>
    decreases prefix.len(),
{
    if prefix.len() <= leading {
        None
    } else if completes(prefix) {
        Some(prefix)
    } else {
        search_outcome(prefix.drop_last(), leading, completes)
    }
}

/// A search keeps the longest prefix that runs to completion and does more than
/// position the tool, and finds none only where there is none.
pub proof fn law_the_longest_completing_prefix_is_kept(
    prefix: Seq<BlockView>,
    leading: nat,
    completes: spec_fn(Seq<BlockView>) -> bool,
)
    ensures
        match search_outcome(prefix, leading, completes) {
            Some(kept) => {
                &&& leading < kept.len() <= prefix.len()
                &&& kept == prefix.take(kept.len() as int)
                &&& completes(kept)
                &&& forall|n: int|
                    kept.len() < n <= prefix.len() ==> !completes(#[trigger] prefix.take(n))
            },
            None => forall|n: int|
                leading < n <= prefix.len() ==> !completes(#[trigger] prefix.take(n)),
        },
    decreases prefix.len(),
{
    assert(prefix.take(prefix.len() as int) =~= prefix);
    if prefix.len() > leading && !completes(prefix) {
        let shorter = prefix.drop_last();
        law_the_longest_completing_prefix_is_kept(shorter, leading, completes);
        assert forall|n: int| 0 <= n <= shorter.len() implies #[trigger] prefix.take(n)
            == shorter.take(n) by {
            assert(prefix.take(n) =~= shorter.take(n));
        }
    }
}

/// A heading has many spellings a turn apart. The first that the joint can reach
/// is taken; if it can reach none, the first is moved to the end of its travel.
pub open spec fn resolved(spellings: Seq<Real>, low: Real, high: Real) -> Real {
    if low.at_most(spellings[0]) && spellings[0].at_most(high) {
        spellings[0]
    } else if low.at_most(spellings[1]) && spellings[1].at_most(high) {
        spellings[1]
    } else if low.at_most(spellings[2]) && spellings[2].at_most(high) {
        spellings[2]
    } else {
        spellings[0].clamped(low, high)
    }
}

/// The heading to drive a joint to. Clamping before trying the other spellings
/// would silently aim somewhere else.
pub fn resolve(spellings: [Real; 3], low: Real, high: Real) -> (r: Real)
    requires
        low.at_most(high),
    ensures
        r == resolved(spellings@, low, high),
{
    if low.le(spellings[0]) && spellings[0].le(high) {
        spellings[0]
    } else if low.le(spellings[1]) && spellings[1].le(high) {
        spellings[1]
    } else if low.le(spellings[2]) && spellings[2].le(high) {
        spellings[2]
    } else {
        spellings[0].clamp(low, high)
    }
}

/// A resolved heading lies within the joint's travel.
pub proof fn law_resolved_headings_are_reachable(spellings: Seq<Real>, low: Real, high: Real)
    requires
        low.at_most(high),
        !spellings[0].not_a_number(),
    ensures
        low.at_most(resolved(spellings, low, high)),
        resolved(spellings, low, high).at_most(high),
{
}

/// The smaller of two numbers, where both are numbers.
pub open spec fn lesser(a: Real, b: Real) -> Real {
    if a.not_a_number() || b.below(a) {
        b
    } else {
        a
    }
}

/// The larger of two numbers, where both are numbers.
pub open spec fn greater(a: Real, b: Real) -> Real {
    if a.not_a_number() || a.below(b) {
        b
    } else {
        a
    }
}

/// A joint's travel, as arm angles.
pub open spec fn travel(joint: JointConfig) -> (Real, Real) {
    match joint.servo {
        None => (joint.min_angle_deg.value, joint.max_angle_deg.value),
        Some(servo) => {
            let low = servo.geometric(joint.min_angle_deg.value);
            let high = servo.geometric(joint.max_angle_deg.value);
            (lesser(low, high), greater(low, high))
        },
    }
}

/// Whether a joint's travel is an interval.
pub open spec fn movable(joint: JointConfig) -> bool {
    travel(joint).0.at_most(travel(joint).1)
}

/// A joint's travel, as arm angles, whichever way its servo turns.
pub fn geometric_range(joint: &JointConfig) -> (r: (Real, Real))
    ensures
        r == travel(*joint),
{
    let (min, max) = (joint.min_angle_deg.value, joint.max_angle_deg.value);
    match &joint.servo {
        None => (min, max),
        Some(servo) => {
            let low = servo.to_geometric_deg(min);
            let high = servo.to_geometric_deg(max);
            let least = if low.is_nan() || high.lt(low) {
                high
            } else {
                low
            };
            let most = if low.is_nan() || low.lt(high) {
                high
            } else {
                low
            };
            (least, most)
        },
    }
}

/// Whether a joint's travel is an interval.
pub fn is_movable(joint: &JointConfig) -> (r: bool)
    ensures
        r == movable(*joint),
{
    let (low, high) = geometric_range(joint);
    low.le(high)
}

/// An arm angle held to a joint's travel, in the units a program carries.
pub open spec fn placed(angle: Real, joint: JointConfig) -> Real {
    let held = angle.clamped(travel(joint).0, travel(joint).1);
    match joint.servo {
        None => held,
        Some(servo) => servo.commanded(held),
    }
}

/// Hold an arm angle to a joint's travel and give it in the units a program carries:
/// servo degrees wherever the joint drives a servo. An arm angle in a block would be
/// replayed as a servo command and put the arm somewhere else entirely.
pub fn place_angle(angle: Real, joint: &JointConfig) -> (r: Real)
    requires
        movable(*joint),
    ensures
        r == placed(angle, *joint),
{
    let (low, high) = geometric_range(joint);
    let held = angle.clamp(low, high);
    match &joint.servo {
        None => held,
        Some(servo) => servo.to_servo_deg(held),
    }
}

/// Degrees that the pose over the crown holds its joints at: 15, 80, 0 and -80.
pub open spec fn pose_angle(step: int) -> Real {
    if step == 0 {
        Real { bits: 0x402e_0000_0000_0000 }
    } else if step == 1 {
        Real { bits: 0x4054_0000_0000_0000 }
    } else if step == 2 {
        Real { bits: 0 }
    } else {
        Real { bits: 0xc054_0000_0000_0000 }
    }
}

/// A whole turn, in degrees.
pub const TURN: u64 = 0x4076_8000_0000_0000;

/// Half a turn, in degrees.
pub const HALF_TURN: u64 = 0x4066_8000_0000_0000;

/// Where the height joint stands for the first pass: eighty degrees.
pub const BASE_HEIGHT: u64 = 0x4054_0000_0000_0000;

/// How far each later pass lowers it: ten degrees.
pub const PASS_HEIGHT_STEP: u64 = 0x4024_0000_0000_0000;

/// The angle closer than which two headings are one.
pub const SAME_HEADING: u64 = 0x3cb0_0000_0000_0000;

/// The heading of a joint nearest to an arm angle, within its travel.
pub open spec fn heading(angle: Real, joint: JointConfig) -> Real {
    let turn = Real { bits: TURN };
    resolved(
        seq![angle, angle.plus(turn), angle.minus(turn)],
        travel(joint).0,
        travel(joint).1,
    )
}

/// The arm angles between which a sector lies. The arm's azimuth runs against its base
/// joint, so a sector's centre is at the opposite angle.
pub open spec fn sector(sector_turn: Real, sector_span: Real) -> (Real, Real) {
    let centre = sector_turn.opposite().times(Real { bits: TURN });
    let half_width = sector_span.times(Real { bits: HALF_TURN });
    (centre.minus(half_width), centre.plus(half_width))
}

/// Whether a joint can sweep a sector: one with a width whose ends meet lies out of
/// reach. One without a width is a thin line.
pub open spec fn sweepable(joint: JointConfig, sector_turn: Real, sector_span: Real) -> bool {
    let (from, to) = sector(sector_turn, sector_span);
    sector_span.times(Real { bits: HALF_TURN }).equals(Real { bits: 0 }) || !heading(
        from,
        joint,
    ).minus(heading(to, joint)).absolute().below(Real { bits: SAME_HEADING })
}

/// Where the height joint stands for a pass.
pub open spec fn pass_height(joint: JointConfig, pass: int) -> Real {
    let base = (Real { bits: BASE_HEIGHT }).clamped(travel(joint).0, travel(joint).1);
    placed(
        base.minus((Real { bits: PASS_HEIGHT_STEP }).times(Real::from_whole(pass))),
        joint,
    )
}

/// Whether a placement trims a sector: each joint of the pose that the arm has is
/// posed, the sweep joint sweeps between the ends of the sector, and the height joint is
/// lowered pass by pass.
pub open spec fn aims(
    placement: Placement,
    joints: Seq<JointConfig>,
    sector_turn: Real,
    sector_span: Real,
) -> bool {
    let (from, to) = sector(sector_turn, sector_span);
    &&& forall|step: int, i: int|
        0 <= step < POSE_JOINTS && #[trigger] is_joint(joints, pose_joint_text(step), i)
            ==> placement.pose@[step] == placed(pose_angle(step), joints[i])
    &&& forall|i: int| #[trigger]
        is_joint(joints, SWEEP_JOINT@, i) ==> placement.from == placed(
            heading(from, joints[i]),
            joints[i],
        ) && placement.to == placed(heading(to, joints[i]), joints[i])
    &&& forall|pass: int, i: int|
        0 <= pass < MAX_PASSES && #[trigger] is_joint(joints, HEIGHT_JOINT@, i)
            ==> #[trigger] placement.heights@[pass] == pass_height(joints[i], pass)
}

impl Placement {
    /// Where the arm is posed, swept and lowered to trim a sector; nowhere if it has no
    /// joint to sweep with, or cannot reach the sector.
    pub fn aim(joints: &[JointConfig], sector_turn: Real, sector_span: Real) -> (r: Option<Self>)
        requires
            forall|i: int| 0 <= i < joints@.len() ==> movable(#[trigger] joints@[i]),
        ensures
            match r {
                Some(placement) => aims(placement, joints@, sector_turn, sector_span) && exists|
                    i: int,
                | #[trigger]
                    is_joint(joints@, SWEEP_JOINT@, i) && sweepable(
                        joints@[i],
                        sector_turn,
                        sector_span,
                    ),
                None => forall|i: int| #[trigger]
                    is_joint(joints@, SWEEP_JOINT@, i) ==> !sweepable(
                        joints@[i],
                        sector_turn,
                        sector_span,
                    ),
            },
    {
        let joint = match find_joint(joints, SWEEP_JOINT) {
            Some(joint) => joint,
            None => {
                return None;
            },
        };
        let ghost at = choose|i: int| #[trigger]
            is_joint(joints@, SWEEP_JOINT@, i) && *joint == joints@[i];
        let turn = Real { bits: TURN };
        let centre = sector_turn.neg().multiply(turn);
        let half_width = sector_span.multiply(Real { bits: HALF_TURN });
        let low = Self::heading(centre.subtract(half_width), joint);
        let high = Self::heading(centre.sum(half_width), joint);
        if !half_width.same(Real::zero()) && low.subtract(high).abs().lt(
            Real { bits: SAME_HEADING },
        ) {
            assert forall|i: int| #[trigger] is_joint(joints@, SWEEP_JOINT@, i) implies i == at by {
                lemma_one_joint(joints@, SWEEP_JOINT@, i, at);
            }
            return None;
        }
        let placement = Placement {
            pose: [
                Self::posed(joints, 0),
                Self::posed(joints, 1),
                Self::posed(joints, 2),
                Self::posed(joints, 3),
            ],
            from: place_angle(low, joint),
            to: place_angle(high, joint),
            heights: [
                Self::lowered(joints, 0),
                Self::lowered(joints, 1),
                Self::lowered(joints, 2),
                Self::lowered(joints, 3),
            ],
        };
        assert(aims(placement, joints@, sector_turn, sector_span)) by {
            assert forall|i: int| #[trigger] is_joint(joints@, SWEEP_JOINT@, i) implies i == at by {
                lemma_one_joint(joints@, SWEEP_JOINT@, i, at);
            }
        }
        Some(placement)
    }

    fn heading(angle: Real, joint: &JointConfig) -> (r: Real)
        requires
            movable(*joint),
        ensures
            r == heading(angle, *joint),
    {
        let turn = Real { bits: TURN };
        let (low, high) = geometric_range(joint);
        let spellings = [angle, angle.sum(turn), angle.subtract(turn)];
        assert(spellings@ =~= seq![
            angle,
            angle.plus(Real { bits: TURN }),
            angle.minus(Real { bits: TURN }),
        ]);
        resolve(spellings, low, high)
    }

    fn posed(joints: &[JointConfig], step: usize) -> (r: Real)
        requires
            step < POSE_JOINTS,
            forall|i: int| 0 <= i < joints@.len() ==> movable(#[trigger] joints@[i]),
        ensures
            forall|i: int| #[trigger]
                is_joint(joints@, pose_joint_text(step as int), i) ==> r == placed(
                    pose_angle(step as int),
                    joints@[i],
                ),
    {
        let angle = if step == 0 {
            Real { bits: 0x402e_0000_0000_0000 }
        } else if step == 1 {
            Real { bits: 0x4054_0000_0000_0000 }
        } else if step == 2 {
            Real { bits: 0 }
        } else {
            Real { bits: 0xc054_0000_0000_0000 }
        };
        match find_joint(joints, pose_joint(step)) {
            Some(joint) => {
                let ghost at = choose|i: int| #[trigger]
                    is_joint(joints@, pose_joint_text(step as int), i) && *joint == joints@[i];
                assert forall|i: int| #[trigger]
                    is_joint(joints@, pose_joint_text(step as int), i) implies i == at by {
                    lemma_one_joint(joints@, pose_joint_text(step as int), i, at);
                }
                place_angle(angle, joint)
            },
            None => angle,
        }
    }

    fn lowered(joints: &[JointConfig], pass: i32) -> (r: Real)
        requires
            forall|i: int| 0 <= i < joints@.len() ==> movable(#[trigger] joints@[i]),
        ensures
            forall|i: int| #[trigger]
                is_joint(joints@, HEIGHT_JOINT@, i) ==> r == pass_height(joints@[i], pass as int),
    {
        let base = Real { bits: BASE_HEIGHT };
        match find_joint(joints, HEIGHT_JOINT) {
            Some(joint) => {
                let ghost at = choose|i: int| #[trigger]
                    is_joint(joints@, HEIGHT_JOINT@, i) && *joint == joints@[i];
                assert forall|i: int| #[trigger] is_joint(joints@, HEIGHT_JOINT@, i) implies i
                    == at by {
                    lemma_one_joint(joints@, HEIGHT_JOINT@, i, at);
                }
                let (low, high) = geometric_range(joint);
                let start = base.clamp(low, high);
                let down = (Real { bits: PASS_HEIGHT_STEP }).multiply(Real::of_whole(pass));
                place_angle(start.subtract(down), joint)
            },
            None => base,
        }
    }
}

proof fn lemma_one_joint(joints: Seq<JointConfig>, id: Seq<char>, i: int, j: int)
    requires
        is_joint(joints, id, i),
        is_joint(joints, id, j),
    ensures
        i == j,
{
    if i < j {
        assert(joints[i].id@ != id);
    }
    if j < i {
        assert(joints[j].id@ != id);
    }
}

proof fn lemma_pose_degrees()
    ensures
        (Real { bits: 0x402e_0000_0000_0000 }).is_number(15),
        (Real { bits: 0x4054_0000_0000_0000 }).is_number(80),
        (Real { bits: 0 }).is_number(0),
        (Real { bits: 0xc054_0000_0000_0000 }).is_number(-80),
        (Real { bits: 0x4024_0000_0000_0000 }).is_number(10),
        (Real { bits: 0x4076_8000_0000_0000 }).is_number(360),
        (Real { bits: 0x4066_8000_0000_0000 }).is_number(180),
{
    vstd::arithmetic::power2::lemma2_to64();
    vstd::arithmetic::power2::lemma2_to64_rest();
    law_encodings_of_whole_numbers(Real { bits: 0x402e_0000_0000_0000 }, 15, 49);
    law_encodings_of_whole_numbers(Real { bits: 0x4054_0000_0000_0000 }, 80, 46);
    law_encodings_of_whole_numbers(Real { bits: 0xc054_0000_0000_0000 }, 80, 46);
    law_encodings_of_whole_numbers(Real { bits: 0x4024_0000_0000_0000 }, 10, 49);
    law_encodings_of_whole_numbers(Real { bits: 0x4076_8000_0000_0000 }, 360, 44);
    law_encodings_of_whole_numbers(Real { bits: 0x4066_8000_0000_0000 }, 180, 45);
    assert((Real { bits: 0 }).significand() == 0);
    assert(0 * pow2((((Real { bits: 0 }).scale() + 1074)) as nat) == 0);
}

/// Whether a joint without a servo can be turned to some whole degrees.
pub open spec fn turns_to(joint: JointConfig, degrees: int) -> bool {
    let (low, high) = (joint.min_angle_deg.value, joint.max_angle_deg.value);
    &&& joint.servo is None
    &&& low.finite() && high.finite()
    &&& low.signed_steps() <= degrees * pow2(1074)
    &&& degrees * pow2(1074) <= high.signed_steps()
}

proof fn lemma_reachable_angle(angle: Real, joint: JointConfig, degrees: int)
    requires
        turns_to(joint, degrees),
        angle.is_number(degrees),
    ensures
        angle.clamped(travel(joint).0, travel(joint).1) == angle,
        placed(angle, joint) == angle,
{
    law_equal_values_rank_alike(joint.min_angle_deg.value, angle);
    law_equal_values_rank_alike(angle, joint.max_angle_deg.value);
}

/// The pose lifts the tool over the crown: on an arm without servos that can reach it, the
/// shoulder is rolled by 15 degrees and raised to 80, the elbow is straight, and the wrist
/// bent to -80, whatever sector is aimed at.
pub proof fn law_the_pose_lifts_the_tool_over_the_crown(
    placement: Placement,
    joints: Seq<JointConfig>,
    sector_turn: Real,
    sector_span: Real,
    roll: int,
    shoulder: int,
    elbow: int,
    wrist: int,
)
    requires
        aims(placement, joints, sector_turn, sector_span),
        is_joint(joints, "shoulderRoll"@, roll),
        is_joint(joints, "shoulder"@, shoulder),
        is_joint(joints, "elbow"@, elbow),
        is_joint(joints, "wrist"@, wrist),
        turns_to(joints[roll], 15),
        turns_to(joints[shoulder], 80),
        turns_to(joints[elbow], 0),
        turns_to(joints[wrist], -80),
    ensures
        placement.pose@[0].is_number(15),
        placement.pose@[1].is_number(80),
        placement.pose@[2].is_number(0),
        placement.pose@[3].is_number(-80),
{
    lemma_pose_degrees();
    assert(is_joint(joints, pose_joint_text(0), roll));
    assert(is_joint(joints, pose_joint_text(1), shoulder));
    assert(is_joint(joints, pose_joint_text(2), elbow));
    assert(is_joint(joints, pose_joint_text(3), wrist));
    lemma_reachable_angle(Real { bits: 0x402e_0000_0000_0000 }, joints[roll], 15);
    lemma_reachable_angle(Real { bits: 0x4054_0000_0000_0000 }, joints[shoulder], 80);
    lemma_reachable_angle(Real { bits: 0 }, joints[elbow], 0);
    lemma_reachable_angle(Real { bits: 0xc054_0000_0000_0000 }, joints[wrist], -80);
}

/// Each pass is cut ten degrees lower than the one before: on an arm without servos that
/// can reach it, the shoulder stands at 80, 70, 60 and 50 degrees.
pub proof fn law_passes_are_cut_ten_degrees_apart(
    placement: Placement,
    joints: Seq<JointConfig>,
    sector_turn: Real,
    sector_span: Real,
    shoulder: int,
    pass: int,
)
    requires
        aims(placement, joints, sector_turn, sector_span),
        is_joint(joints, "shoulder"@, shoulder),
        turns_to(joints[shoulder], 80),
        turns_to(joints[shoulder], 50),
        0 <= pass < 4,
    ensures
        placement.heights@[pass].is_number(80 - 10 * pass),
{
    lemma_pose_degrees();
    let joint = joints[shoulder];
    let base = Real { bits: 0x4054_0000_0000_0000 };
    lemma_reachable_angle(base, joint, 80);
    law_counts_are_exact(pass as nat);
    let step = Real { bits: 0x4024_0000_0000_0000 };
    law_whole_numbers_are_multiplied_exactly(step, Real::from_whole(pass), 10, pass);
    let down = step.times(Real::from_whole(pass));
    law_whole_numbers_are_added_exactly(base, down, 80, 10 * pass);
    let one = pow2(1074) as int;
    vstd::arithmetic::power2::lemma_pow2_pos(1074);
    assert(50 * one <= (80 - 10 * pass) * one && (80 - 10 * pass) * one <= 80 * one) by (nonlinear_arith)
        requires
            one > 0,
            0 <= pass <= 3,
    ;
    lemma_reachable_angle(base.minus(down), joint, 80 - 10 * pass);
    assert(is_joint(joints, HEIGHT_JOINT@, shoulder));
    assert(placement.heights@[pass] == pass_height(joint, pass));
}

proof fn lemma_ends_of_sector(sector_turn: Real, sector_span: Real, turns: int, spans: int)
    requires
        sector_turn.is_number(turns),
        sector_span.is_number(spans),
        -1_000_000 <= turns <= 1_000_000,
        -1_000_000 <= spans <= 1_000_000,
    ensures
        sector(sector_turn, sector_span).0.is_number(-360 * turns - 180 * spans),
        sector(sector_turn, sector_span).1.is_number(-360 * turns + 180 * spans),
{
    lemma_middle_of_sector(sector_turn, turns);
    lemma_half_of_sector(sector_span, spans);
    law_whole_numbers_are_added_exactly(
        sector_turn.opposite().times(Real { bits: 0x4076_8000_0000_0000 }),
        sector_span.times(Real { bits: 0x4066_8000_0000_0000 }),
        -360 * turns,
        180 * spans,
    );
}

proof fn lemma_middle_of_sector(sector_turn: Real, turns: int)
    requires
        sector_turn.is_number(turns),
        -1_000_000 <= turns <= 1_000_000,
    ensures
        sector_turn.opposite().times(Real { bits: 0x4076_8000_0000_0000 }).is_number(-360 * turns),
{
    lemma_pose_degrees();
    let against = sector_turn.opposite();
    let one = pow2(1074);
    assert(against.is_number(-turns)) by {
        assert(against.magnitude() == sector_turn.magnitude());
        assert(against.steps() == sector_turn.steps());
        assert((-turns) * one == -(turns * one)) by (nonlinear_arith);
    }
    assert((-turns) * 360 == -360 * turns);
    law_whole_numbers_are_multiplied_exactly(
        against,
        Real { bits: 0x4076_8000_0000_0000 },
        -turns,
        360,
    );
}

proof fn lemma_half_of_sector(sector_span: Real, spans: int)
    requires
        sector_span.is_number(spans),
        -1_000_000 <= spans <= 1_000_000,
    ensures
        sector_span.times(Real { bits: 0x4066_8000_0000_0000 }).is_number(180 * spans),
{
    lemma_pose_degrees();
    assert(spans * 180 == 180 * spans);
    law_whole_numbers_are_multiplied_exactly(
        sector_span,
        Real { bits: 0x4066_8000_0000_0000 },
        spans,
        180,
    );
}

proof fn lemma_reachable_heading(angle: Real, joint: JointConfig, degrees: int)
    requires
        turns_to(joint, degrees),
        angle.is_number(degrees),
    ensures
        placed(heading(angle, joint), joint) == angle,
{
    lemma_reachable_angle(angle, joint, degrees);
    law_equal_values_rank_alike(joint.min_angle_deg.value, angle);
    law_equal_values_rank_alike(angle, joint.max_angle_deg.value);
    assert(heading(angle, joint) == angle);
}

/// A sweep runs across the whole sector, whose middle lies against its turn: on an arm
/// without servos that can reach it, a sector of a whole span is swept from half a turn
/// below its middle to half a turn above.
pub proof fn law_a_sweep_covers_its_sector(
    placement: Placement,
    joints: Seq<JointConfig>,
    sector_turn: Real,
    sector_span: Real,
    base: int,
    turns: int,
    spans: int,
)
    requires
        aims(placement, joints, sector_turn, sector_span),
        is_joint(joints, "baseYaw"@, base),
        sector_turn.is_number(turns),
        sector_span.is_number(spans),
        -1_000_000 <= turns <= 1_000_000,
        -1_000_000 <= spans <= 1_000_000,
        turns_to(joints[base], -360 * turns - 180 * spans),
        turns_to(joints[base], -360 * turns + 180 * spans),
    ensures
        placement.from.is_number(-360 * turns - 180 * spans),
        placement.to.is_number(-360 * turns + 180 * spans),
{
    let (from, to) = sector(sector_turn, sector_span);
    lemma_ends_of_sector(sector_turn, sector_span, turns, spans);
    lemma_reachable_heading(from, joints[base], -360 * turns - 180 * spans);
    lemma_reachable_heading(to, joints[base], -360 * turns + 180 * spans);
    assert(is_joint(joints, SWEEP_JOINT@, base));
}

/// Every reference starts with its positioning, whatever the passes.
pub proof fn law_references_start_with_the_pose(
    joints: Seq<JointConfig>,
    placement: Placement,
    passes: int,
)
    requires
        0 <= passes,
    ensures
        pose_blocks(joints, placement.pose@, POSE_JOINTS as int).is_prefix_of(
            reference_blocks(joints, placement, passes),
        ),
        reference_blocks(joints, placement, passes).len() >= pose_blocks(
            joints,
            placement.pose@,
            POSE_JOINTS as int,
        ).len() + 2 * passes,
    decreases passes,
{
    if passes > 0 {
        law_references_start_with_the_pose(joints, placement, passes - 1);
    }
}

/// A deeper trim withholds more: every further pass adds blocks to rebuild, and
/// keeps those of the passes before.
pub proof fn law_deeper_trims_extend_the_reference(
    joints: Seq<JointConfig>,
    placement: Placement,
    passes: int,
)
    requires
        0 <= passes,
    ensures
        reference_blocks(joints, placement, passes).is_prefix_of(
            reference_blocks(joints, placement, passes + 1),
        ),
        reference_blocks(joints, placement, passes).len() < reference_blocks(
            joints,
            placement,
            passes + 1,
        ).len(),
{
}


/// The arm goes to and fro: each pass runs from one end of the sector to the other, the first from its
/// beginning, and every further pass starts where the one before it ended.
pub proof fn law_the_arm_goes_to_and_fro(placement: Placement, pass: int)
    requires
        0 <= pass,
    ensures
        sweep_block(placement, 0, false).angle == placement.from,
        sweep_block(placement, 0, true).angle == placement.to,
        sweep_block(placement, pass + 1, false).angle == sweep_block(placement, pass, true).angle,
        sweep_block(placement, pass + 1, true).angle == sweep_block(placement, pass, false).angle,
        sweep_block(placement, pass, false).joint_id == "baseYaw"@,
        sweep_block(placement, pass, true).joint_id == "baseYaw"@,
        height_block(placement, pass).joint_id == "shoulder"@,
        height_block(placement, pass).angle == placement.heights@[pass],
{
}

/// A reference makes as many passes as it is asked for, at least one and at most four.
pub proof fn law_passes_are_one_to_four(passes: u32)
    ensures
        1 <= passes_made(passes) <= 4,
        1 <= passes <= 4 ==> passes_made(passes) == passes,
        passes > 4 ==> passes_made(passes) == 4,
{
}

/// The arm is lowered before every pass but the first, where it can be: a further pass adds a height,
/// if the arm has a shoulder, and then its two ends.
pub proof fn law_the_arm_is_lowered_between_passes(
    joints: Seq<JointConfig>,
    placement: Placement,
    passes: int,
)
    requires
        1 <= passes,
    ensures
        ({
            let before = reference_blocks(joints, placement, passes);
            let after = reference_blocks(joints, placement, passes + 1);
            &&& has_joint(joints, "shoulder"@) ==> after == before.push(
                height_block(placement, passes),
            ).push(sweep_block(placement, passes, false)).push(sweep_block(placement, passes, true))
            &&& !has_joint(joints, "shoulder"@) ==> after == before.push(
                sweep_block(placement, passes, false),
            ).push(sweep_block(placement, passes, true))
        }),
{
}

/// No joint is commanded beyond its travel, and one that can do what is asked does it. Without a servo
/// of its own that is the angle itself; with one it is the servo's angle, whichever way the servo
/// turns.
pub proof fn law_commands_stay_within_the_travel(
    joint: JointConfig,
    angle: Real,
    degrees: int,
    low: int,
    high: int,
    center: int,
    offset: int,
)
    requires
        angle.is_number(degrees),
        joint.min_angle_deg.value.is_number(low),
        joint.max_angle_deg.value.is_number(high),
        low <= high,
        -1_000 <= low,
        high <= 1_000,
        -1_000 <= degrees <= 1_000,
        -1_000 <= center <= 1_000,
        -1_000 <= offset <= 1_000,
        joint.servo matches Some(servo) ==> (servo.direction == 1 || servo.direction == -1)
            && servo.center_deg.value.is_number(center) && servo.offset_deg.value.is_number(offset),
    ensures
        ({
            let asked = match joint.servo {
                None => degrees,
                Some(servo) => if servo.direction == 1 {
                    center + (degrees - offset)
                } else {
                    center - (degrees - offset)
                },
            };
            let kept = if asked < low {
                low
            } else if asked > high {
                high
            } else {
                asked
            };
            placed(angle, joint).is_number(kept)
        }),
{
    let (min, max) = (joint.min_angle_deg.value, joint.max_angle_deg.value);
    match joint.servo {
        None => {
            lemma_clamped_number(angle, min, max, degrees, low, high);
        },
        Some(servo) => {
            law_servo_degrees_convert_back(servo, min, center, offset, low);
            law_servo_degrees_convert_back(servo, max, center, offset, high);
            let (a, b) = (servo.geometric(min), servo.geometric(max));
            let (m, n) = if servo.direction == 1 {
                (offset + (low - center), offset + (high - center))
            } else {
                (offset - (low - center), offset - (high - center))
            };
            lemma_numbers_compare(a, b, m, n);
            lemma_numbers_compare(b, a, n, m);
            let (lowest, highest) = if m <= n {
                (m, n)
            } else {
                (n, m)
            };
            lemma_clamped_number(angle, travel(joint).0, travel(joint).1, degrees, lowest, highest);
            let held = if degrees < lowest {
                lowest
            } else if degrees > highest {
                highest
            } else {
                degrees
            };
            law_servo_degrees_convert_back(
                servo,
                angle.clamped(travel(joint).0, travel(joint).1),
                center,
                offset,
                held,
            );
        },
    }
}

/// A heading that a joint cannot turn to as it is spelled is turned to from the other side, a whole
/// turn away, where the joint can do that; where it cannot do that either it turns as far as it goes.
pub proof fn law_a_heading_out_of_reach_is_turned_round(
    joint: JointConfig,
    angle: Real,
    degrees: int,
    low: int,
    high: int,
)
    requires
        joint.servo is None,
        angle.is_number(degrees),
        joint.min_angle_deg.value.is_number(low),
        joint.max_angle_deg.value.is_number(high),
        -1_000 <= low <= high <= 1_000,
        -1_000 <= degrees <= 1_000,
    ensures
        low <= degrees <= high ==> heading(angle, joint).is_number(degrees),
        !(low <= degrees <= high) && low <= degrees + 360 <= high ==> heading(angle, joint).is_number(
            degrees + 360,
        ),
        !(low <= degrees <= high) && !(low <= degrees + 360 <= high) && low <= degrees - 360 <= high
            ==> heading(angle, joint).is_number(degrees - 360),
        !(low <= degrees <= high) && !(low <= degrees + 360 <= high) && !(low <= degrees - 360 <= high)
            && degrees < low ==> heading(angle, joint).is_number(low),
        !(low <= degrees <= high) && !(low <= degrees + 360 <= high) && !(low <= degrees - 360 <= high)
            && degrees > high ==> heading(angle, joint).is_number(high),
{
    let (min, max) = (joint.min_angle_deg.value, joint.max_angle_deg.value);
    let turn = Real { bits: TURN };
    lemma_pose_degrees();
    law_whole_numbers_are_added_exactly(angle, turn, degrees, 360);
    lemma_numbers_compare(min, angle, low, degrees);
    lemma_numbers_compare(angle, max, degrees, high);
    lemma_numbers_compare(min, angle.plus(turn), low, degrees + 360);
    lemma_numbers_compare(angle.plus(turn), max, degrees + 360, high);
    lemma_numbers_compare(min, angle.minus(turn), low, degrees - 360);
    lemma_numbers_compare(angle.minus(turn), max, degrees - 360, high);
    lemma_clamped_number(angle, min, max, degrees, low, high);
}

/// Whole numbers compare as numbers.
proof fn lemma_numbers_compare(x: Real, y: Real, m: int, n: int)
    requires
        x.is_number(m),
        y.is_number(n),
    ensures
        x.at_most(y) <==> m <= n,
        x.below(y) <==> m < n,
        y.below(x) <==> n < m,
        !x.not_a_number(),
{
    law_equal_values_rank_alike(x, y);
    law_equal_values_rank_alike(y, x);
    let one = pow2(1074);
    vstd::arithmetic::power2::lemma_pow2_pos(1074);
    assert(m <= n <==> m * one <= n * one) by (nonlinear_arith)
        requires
            one > 0,
    ;
    assert(m < n <==> m * one < n * one) by (nonlinear_arith)
        requires
            one > 0,
    ;
}

/// A whole number held between two others.
proof fn lemma_clamped_number(x: Real, low: Real, high: Real, n: int, a: int, b: int)
    requires
        x.is_number(n),
        low.is_number(a),
        high.is_number(b),
        a <= b,
    ensures
        x.clamped(low, high).is_number(
            if n < a {
                a
            } else if n > b {
                b
            } else {
                n
            },
        ),
{
    lemma_numbers_compare(x, low, n, a);
    lemma_numbers_compare(high, x, b, n);
}


/// A sector without width can always be swept; one with a width can be swept exactly when the joint
/// tells its two ends apart.
pub proof fn law_a_sector_is_swept_between_two_headings(
    joint: JointConfig,
    sector_turn: Real,
    sector_span: Real,
    one_end: int,
    other_end: int,
)
    requires
        heading(sector(sector_turn, sector_span).0, joint).is_number(one_end),
        heading(sector(sector_turn, sector_span).1, joint).is_number(other_end),
        -1_000 <= one_end <= 1_000,
        -1_000 <= other_end <= 1_000,
    ensures
        one_end != other_end ==> sweepable(joint, sector_turn, sector_span),
        one_end == other_end && !sector_span.times(Real { bits: 0x4066_8000_0000_0000 }).equals(
            Real { bits: 0 },
        ) ==> !sweepable(joint, sector_turn, sector_span),
{
    let (a, b) = (
        heading(sector(sector_turn, sector_span).0, joint),
        heading(sector(sector_turn, sector_span).1, joint),
    );
    law_whole_numbers_are_added_exactly(a, b, one_end, other_end);
    crate::rounding::lemma_size_of_difference(a.minus(b), one_end - other_end);
    crate::rounding::lemma_a_hair();
    law_equal_values_rank_alike(a.minus(b).absolute(), Real { bits: SAME_HEADING });
}


/// The positioning moves the four joints of the pose, in order, each once and only where the arm has
/// it, to the angle of the placement.
pub proof fn law_the_pose_moves_the_joints_that_are_there(
    joints: Seq<JointConfig>,
    pose: Seq<Real>,
)
    requires
        has_joint(joints, "shoulderRoll"@),
        has_joint(joints, "shoulder"@),
        has_joint(joints, "wrist"@),
    ensures
        has_joint(joints, "elbow"@) ==> pose_blocks(joints, pose, 4).len() == 4 && pose_blocks(
            joints,
            pose,
            4,
        )[0].joint_id == "shoulderRoll"@ && pose_blocks(joints, pose, 4)[0].angle == pose[0]
            && pose_blocks(joints, pose, 4)[1].joint_id == "shoulder"@ && pose_blocks(joints, pose, 4)[1]
            .angle == pose[1] && pose_blocks(joints, pose, 4)[2].joint_id == "elbow"@ && pose_blocks(
            joints,
            pose,
            4,
        )[2].angle == pose[2] && pose_blocks(joints, pose, 4)[3].joint_id == "wrist"@ && pose_blocks(
            joints,
            pose,
            4,
        )[3].angle == pose[3],
        !has_joint(joints, "elbow"@) ==> pose_blocks(joints, pose, 4).len() == 3 && pose_blocks(
            joints,
            pose,
            4,
        )[2].joint_id == "wrist"@ && pose_blocks(joints, pose, 4)[2].angle == pose[3],
{
    reveal_with_fuel(pose_blocks, 5);
}

}
