//! Features of a challenge, used to predict its difficulty.
//!
//! Everything here is computed from the challenge alone: no solver, no response
//! data, so a freshly generated item can be placed on the difficulty scale before
//! anyone has attempted it. Where a cell lies in space the caller tells.

use crate::domain::{ChallengeDefinition, RobotGeometryConfig, VoxelConfig, VoxelCoord};
use crate::likelihood::{unit, Functions, Model};
use crate::number::Real;
use crate::rounding::{
    law_a_number_less_itself_is_nothing, law_a_part_is_at_most_all, law_adding_stays_a_number,
    law_counts_are_exact, law_encodings_order_numbers, law_numbers_are_not_rounded,
    law_quotients_keep_order, law_sums_keep_order, SIGNIFICAND_BOUND,
};
use crate::voxels::{exposed, in_order, interior, mirror, VoxelSet};
use vstd::arithmetic::power2::pow2;
use vstd::prelude::*;

verus! {

/// Feature vector for the difficulty model.
///
/// All fields except `removal_volume` lie between zero and one, which keeps the
/// model's coefficients interpretable as difficulty per unit of feature.
#[derive(Clone, Copy, Debug, PartialEq, Eq, Structural)]
pub struct ChallengeFeatures {
    /// Logarithm of one more than the number of voxels that must be removed.
    pub removal_volume: Real,
    /// Fraction of target voxels sitting on the target's surface.
    pub boundary_ratio: Real,
    /// How far the target departs from left/right symmetry.
    pub asymmetry: Real,
    /// Mean reach demand over the removal set.
    pub reach_strain: Real,
    /// Mean closeness of the removal set to the head.
    pub head_proximity: Real,
}

impl ChallengeFeatures {
    /// Features in the model's canonical order.
    pub fn as_array(&self) -> (r: [Real; 5])
        ensures
            r@ == seq![
                self.removal_volume,
                self.boundary_ratio,
                self.asymmetry,
                self.reach_strain,
                self.head_proximity,
            ],
    {
        [
            self.removal_volume,
            self.boundary_ratio,
            self.asymmetry,
            self.reach_strain,
            self.head_proximity,
        ]
    }
}

/// What is counted of a pair of hairstyles.
#[derive(Clone, Copy, Debug, PartialEq, Eq, Structural)]
pub struct ShapeCounts {
    /// Voxels that must be removed.
    pub removed: usize,
    /// Voxels of the target.
    pub target: usize,
    /// Voxels of the target with an exposed face.
    pub boundary: usize,
    /// Voxels that the target or its mirror image holds.
    pub union: usize,
    /// Voxels that both hold.
    pub shared: usize,
}

impl ShapeCounts {
    /// The share of target voxels that sit on the target's surface, as a part
    /// and a whole; nothing of a target without voxels.
    pub open spec fn surface(self) -> (nat, nat) {
        if self.target == 0 {
            (0, 1)
        } else {
            (self.boundary as nat, self.target as nat)
        }
    }

    /// How far the target departs from its mirror image: what they do not share,
    /// of what either holds; nothing of a target without voxels.
    pub open spec fn departure(self) -> (nat, nat) {
        if self.union == 0 {
            (0, 1)
        } else {
            ((self.union - self.shared) as nat, self.union as nat)
        }
    }

    /// The share of target voxels on the target's surface: part and whole.
    pub fn boundary_share(&self) -> (r: (usize, usize))
        ensures
            (r.0 as nat, r.1 as nat) == self.surface(),
    {
        if self.target == 0 {
            (0, 1)
        } else {
            (self.boundary, self.target)
        }
    }

    /// How far the target departs from left/right symmetry: part and whole.
    pub fn asymmetry_share(&self) -> (r: (usize, usize))
        requires
            self.shared <= self.union,
        ensures
            (r.0 as nat, r.1 as nat) == self.departure(),
    {
        if self.union == 0 {
            (0, 1)
        } else {
            (self.union - self.shared, self.union)
        }
    }
}

/// The cells of a set reflected in the plane at `centre` along `z`.
pub open spec fn reflection(cells: Set<VoxelCoord>, centre: int) -> Set<VoxelCoord> {
    cells.map(|cell: VoxelCoord| mirror(cell, centre))
}

/// Whether a cell and its neighbours and its mirror image are cells.
pub open spec fn measurable(cell: VoxelCoord, centre: int) -> bool {
    interior(cell) && i32::MIN <= 2 * centre - cell.z <= i32::MAX
}

/// The voxels to remove, in order: those of the initial hairstyle that the
/// target does not keep.
pub fn removal(initial: &[VoxelCoord], target: &[VoxelCoord]) -> (r: VoxelSet)
    ensures
        r@ == initial@.to_set().difference(target@.to_set()),
{
    let before = VoxelSet::of(initial);
    let after = VoxelSet::of(target);
    before.difference(&after)
}

/// Count what the difficulty of a pair of hairstyles rests on. `centre` is the
/// lattice column of the head along `z`: left and right of the arm lie along it.
pub fn shape_counts(initial: &[VoxelCoord], target: &[VoxelCoord], centre: i32) -> (r: ShapeCounts)
    requires
        forall|i: int| 0 <= i < target@.len() ==> measurable(#[trigger] target@[i], centre as int),
    ensures
        ({
            let wanted = target@.to_set();
            let image = reflection(wanted, centre as int);
            &&& r.removed == initial@.to_set().difference(wanted).len()
            &&& r.target == wanted.len()
            &&& r.boundary == wanted.filter(|cell: VoxelCoord| exposed(wanted, cell)).len()
            &&& r.union == wanted.union(image).len()
            &&& r.shared == wanted.intersect(image).len()
            &&& r.boundary <= r.target
            &&& r.shared <= r.union
        }),
{
    let ghost wanted = target@.to_set();
    let gone = removal(initial, target);
    let kept = VoxelSet::of(target);
    assert forall|cell: VoxelCoord| #[trigger] kept@.contains(cell) implies measurable(
        cell,
        centre as int,
    ) by {
        let i = choose|i: int| 0 <= i < target@.len() && target@[i] == cell;
        assert(measurable(target@[i], centre as int));
    }
    let boundary = kept.boundary();
    let image = kept.mirrored(centre);
    assert(image@ =~= reflection(wanted, centre as int)) by {
        assert forall|cell: VoxelCoord| image@.contains(cell) <==> reflection(
            wanted,
            centre as int,
        ).contains(cell) by {
            let f = |source: VoxelCoord| mirror(source, centre as int);
            if image@.contains(cell) {
                let source = choose|source: VoxelCoord| #[trigger]
                    kept@.contains(source) && mirror(source, centre as int) == cell;
                assert(wanted.contains(source) && f(source) == cell);
            }
            if reflection(wanted, centre as int).contains(cell) {
                let source = choose|source: VoxelCoord| #[trigger]
                    wanted.contains(source) && cell == f(source);
                assert(kept@.contains(source) && mirror(source, centre as int) == cell);
            }
        }
    }
    let either = kept.union(&image);
    let both = kept.intersection(&image);
    let counts = ShapeCounts {
        removed: gone.len(),
        target: kept.len(),
        boundary: boundary.len(),
        union: either.len(),
        shared: both.len(),
    };
    proof {
        law_boundary_is_part_of_the_target(wanted);
        assert(both@.subset_of(either@));
        vstd::set_lib::lemma_len_subset(both@, either@);
    }
    counts
}

/// Both shares of what is counted lie between zero and one, and a hairstyle that
/// is its own mirror image departs from it by nothing.
pub proof fn law_shares_lie_between_zero_and_one(counts: ShapeCounts)
    requires
        counts.boundary <= counts.target,
        counts.shared <= counts.union,
    ensures
        0 <= counts.surface().0 <= counts.surface().1,
        counts.surface().1 > 0,
        0 <= counts.departure().0 <= counts.departure().1,
        counts.departure().1 > 0,
        counts.shared == counts.union ==> counts.departure().0 == 0,
{
}

/// Reflecting a cell twice gives it back.
pub proof fn law_mirroring_twice_changes_nothing(cell: VoxelCoord, centre: int)
    requires
        i32::MIN <= 2 * centre - cell.z <= i32::MAX,
    ensures
        mirror(mirror(cell, centre), centre) == cell,
{
}

/// A hairstyle counts as symmetric, nothing of it unshared with its mirror
/// image, exactly if it is its own mirror image.
pub proof fn law_symmetric_means_its_own_mirror_image(wanted: Set<VoxelCoord>, image: Set<VoxelCoord>)
    requires
        wanted.finite(),
        image.finite(),
    ensures
        wanted.intersect(image).len() <= wanted.union(image).len(),
        (wanted.intersect(image).len() == wanted.union(image).len()) == (wanted == image),
{
    let both = wanted.intersect(image);
    let either = wanted.union(image);
    assert(both.subset_of(either));
    assert(either.finite());
    vstd::set_lib::lemma_len_subset(both, either);
    if both.len() == either.len() {
        vstd::set_lib::lemma_subset_equality(both, either);
        assert forall|cell: VoxelCoord| wanted.contains(cell) <==> image.contains(cell) by {
            assert(either.contains(cell) == both.contains(cell));
        }
        assert(wanted =~= image);
    }
    if wanted == image {
        assert(both =~= either);
    }
}

/// The surface of a hairstyle is part of it.
pub proof fn law_boundary_is_part_of_the_target(wanted: Set<VoxelCoord>)
    requires
        wanted.finite(),
    ensures
        wanted.filter(|cell: VoxelCoord| exposed(wanted, cell)).len() <= wanted.len(),
{
    let surface = wanted.filter(|cell: VoxelCoord| exposed(wanted, cell));
    assert(surface.subset_of(wanted));
    vstd::set_lib::lemma_len_subset(surface, wanted);
}

/// A point in space.
#[derive(Clone, Copy, Debug, PartialEq, Eq, Structural)]
pub struct Point {
    /// Along `x`.
    pub x: Real,
    /// Along `y`.
    pub y: Real,
    /// Along `z`.
    pub z: Real,
}

/// Whether cells are located by a function.
pub open spec fn locates<W: Fn(VoxelCoord) -> Point>(
    locate: W,
    place: spec_fn(VoxelCoord) -> Point,
) -> bool {
    forall|cell: VoxelCoord, found: Point| #[trigger]
        locate.ensures((cell,), found) ==> found == place(cell)
}

/// The length of what has these sides.
pub open spec fn length(x: Real, y: Real, z: Real, model: Model) -> Real {
    (model.root)(x.times(x).plus(y.times(y)).plus(z.times(z)))
}

/// The share of reach from which on it counts: seven tenths.
pub const EASY_REACH: u64 = 0x3fe6_6666_6666_6666;

/// What is left of reach beyond it: three tenths.
pub const HARD_REACH: u64 = 0x3fd3_3333_3333_3333;

/// The distance from the head, in head radii, from which on it does not count: 1.6.
pub const CLEAR_DISTANCE: u64 = 0x3ff9_9999_9999_999a;

/// How far that is from the surface: 0.6.
pub const CLOSE_DISTANCE: u64 = 0x3fe3_3333_3333_3333;

/// A number held to the range from zero to one.
pub open spec fn fraction(x: Real) -> Real {
    x.clamped(Real { bits: 0 }, unit())
}

/// The arm's reach, stretched out.
pub open spec fn max_reach(geometry: RobotGeometryConfig) -> Real {
    geometry.upper_arm_length.value.plus(geometry.forearm_length.value).plus(
        geometry.tool_length.value,
    )
}

/// How much of the arm's reach a point takes: nothing until seven tenths, all of it
/// stretched out.
pub open spec fn strain_at(point: Point, geometry: RobotGeometryConfig, model: Model) -> Real {
    let height = geometry.base_position[1].value.plus(geometry.shoulder_height.value);
    let distance = length(
        point.x.minus(geometry.base_position[0].value),
        point.y.minus(height),
        point.z.minus(geometry.base_position[2].value),
        model,
    );
    fraction(
        distance.over(max_reach(geometry)).minus(Real { bits: EASY_REACH }).over(
            Real { bits: HARD_REACH },
        ),
    )
}

/// The distance of a point from the head's centre, in head radii: one at its surface.
pub open spec fn radius_at(point: Point, voxel: VoxelConfig, model: Model) -> Real {
    length(
        point.x.minus(voxel.head_center[0].value).over(voxel.head_scale[0].value),
        point.y.minus(voxel.head_center[1].value).over(voxel.head_scale[1].value),
        point.z.minus(voxel.head_center[2].value).over(voxel.head_scale[2].value),
        model,
    )
}

/// How close a point is to the head: all the way at its surface, not at all at 1.6 times
/// its radius.
pub open spec fn closeness_at(point: Point, voxel: VoxelConfig, model: Model) -> Real {
    fraction(
        (Real { bits: CLEAR_DISTANCE }).minus(radius_at(point, voxel, model)).over(
            Real { bits: CLOSE_DISTANCE },
        ),
    )
}

/// The sum of a measure over cells, first to last.
pub open spec fn total_over(cells: Seq<VoxelCoord>, measure: spec_fn(VoxelCoord) -> Real) -> Real
    decreases cells.len(),
{
    if cells.len() == 0 {
        Real { bits: 0 }
    } else {
        total_over(cells.drop_last(), measure).plus(measure(cells.last()))
    }
}

/// The mean of a measure over cells, and zero without any, or where it is not defined.
pub open spec fn mean_over(
    cells: Seq<VoxelCoord>,
    defined: bool,
    measure: spec_fn(VoxelCoord) -> Real,
) -> Real {
    if cells.len() == 0 || !defined {
        Real { bits: 0 }
    } else {
        total_over(cells, measure).over(Real::from_count(cells.len()))
    }
}

/// Mean reach demand over cells.
pub open spec fn reach_of(
    cells: Seq<VoxelCoord>,
    geometry: RobotGeometryConfig,
    place: spec_fn(VoxelCoord) -> Point,
    model: Model,
) -> Real {
    mean_over(
        cells,
        !max_reach(geometry).at_most(Real { bits: 0 }),
        |cell: VoxelCoord| strain_at(place(cell), geometry, model),
    )
}

/// Whether a head has no extent along an axis.
pub open spec fn flat(voxel: VoxelConfig) -> bool {
    exists|axis: int|
        0 <= axis < 3 && (#[trigger] voxel.head_scale[axis]).value.at_most(Real { bits: 0 })
}

/// Mean closeness of cells to the head.
pub open spec fn proximity_of(
    cells: Seq<VoxelCoord>,
    voxel: VoxelConfig,
    place: spec_fn(VoxelCoord) -> Point,
    model: Model,
) -> Real {
    mean_over(
        cells,
        !flat(voxel),
        |cell: VoxelCoord| closeness_at(place(cell), voxel, model),
    )
}

/// The lattice column of the head's centre along `z`.
pub open spec fn centre_column(voxel: VoxelConfig) -> int {
    voxel.head_center[2].value.minus(voxel.origin[2].value).over(voxel.size.value).nearest_index()
}

/// A part of a whole, as a number.
pub open spec fn share(part: (nat, nat)) -> Real {
    Real::from_count(part.0).over(Real::from_count(part.1))
}

/// What is counted of a pair of hairstyles about a column.
pub open spec fn counts(
    initial: Set<VoxelCoord>,
    target: Set<VoxelCoord>,
    centre: int,
) -> (nat, nat, nat, nat, nat) {
    let image = reflection(target, centre);
    (
        initial.difference(target).len(),
        target.len(),
        target.filter(|cell: VoxelCoord| exposed(target, cell)).len(),
        target.union(image).len(),
        target.intersect(image).len(),
    )
}

/// Whether features are those of a challenge. Means are taken over the cells to remove,
/// in order.
pub open spec fn describes(
    features: ChallengeFeatures,
    challenge: ChallengeDefinition,
    place: spec_fn(VoxelCoord) -> Point,
    model: Model,
) -> bool {
    let initial = challenge.initial_hair.voxels@.to_set();
    let target = challenge.target_hair.voxels@.to_set();
    let (removed, kept, boundary, either, both) = counts(
        initial,
        target,
        centre_column(challenge.voxel_config),
    );
    &&& features.removal_volume == (model.logarithm)(unit().plus(Real::from_count(removed)))
    &&& features.boundary_ratio == share(
        if kept == 0 {
            (0, 1)
        } else {
            (boundary, kept)
        },
    )
    &&& features.asymmetry == share(
        if either == 0 {
            (0, 1)
        } else {
            ((either - both) as nat, either)
        },
    )
    &&& exists|cells: Seq<VoxelCoord>| #[trigger]
        in_order(cells) && cells.to_set() == initial.difference(target) && features.reach_strain
            == reach_of(cells, challenge.robot_config.geometry, place, model)
            && features.head_proximity == proximity_of(
            cells,
            challenge.voxel_config,
            place,
            model,
        )
}

fn side_length<E: Fn(Real) -> Real, L: Fn(Real) -> Real, S: Fn(Real) -> Real>(
    x: Real,
    y: Real,
    z: Real,
    functions: &Functions<E, L, S>,
) -> (r: Real)
    requires
        functions.everywhere(),
    ensures
        forall|model: Model| #[trigger] functions.follow(model) ==> r == length(x, y, z, model),
{
    functions.sqrt(x.multiply(x).sum(y.multiply(y)).sum(z.multiply(z)))
}

fn strain<E: Fn(Real) -> Real, L: Fn(Real) -> Real, S: Fn(Real) -> Real>(
    point: Point,
    geometry: &RobotGeometryConfig,
    reach: Real,
    functions: &Functions<E, L, S>,
) -> (r: Real)
    requires
        functions.everywhere(),
        reach == max_reach(*geometry),
    ensures
        forall|model: Model| #[trigger]
            functions.follow(model) ==> r == strain_at(point, *geometry, model),
{
    let height = geometry.base_position[1].value.sum(geometry.shoulder_height.value);
    let distance = side_length(
        point.x.subtract(geometry.base_position[0].value),
        point.y.subtract(height),
        point.z.subtract(geometry.base_position[2].value),
        functions,
    );
    distance.divide(reach).subtract(Real { bits: EASY_REACH }).divide(
        Real { bits: HARD_REACH },
    ).clamp(Real::zero(), Real::one())
}

/// The distance of a point from the head's centre, in head radii.
pub(crate) fn head_radius<E: Fn(Real) -> Real, L: Fn(Real) -> Real, S: Fn(Real) -> Real>(
    point: Point,
    voxel: &VoxelConfig,
    functions: &Functions<E, L, S>,
) -> (r: Real)
    requires
        functions.everywhere(),
    ensures
        forall|model: Model| #[trigger]
            functions.follow(model) ==> r == radius_at(point, *voxel, model),
{
    side_length(
        point.x.subtract(voxel.head_center[0].value).divide(voxel.head_scale[0].value),
        point.y.subtract(voxel.head_center[1].value).divide(voxel.head_scale[1].value),
        point.z.subtract(voxel.head_center[2].value).divide(voxel.head_scale[2].value),
        functions,
    )
}

fn closeness<E: Fn(Real) -> Real, L: Fn(Real) -> Real, S: Fn(Real) -> Real>(
    point: Point,
    voxel: &VoxelConfig,
    functions: &Functions<E, L, S>,
) -> (r: Real)
    requires
        functions.everywhere(),
    ensures
        forall|model: Model| #[trigger]
            functions.follow(model) ==> r == closeness_at(point, *voxel, model),
{
    (Real { bits: CLEAR_DISTANCE }).subtract(head_radius(point, voxel, functions)).divide(
        Real { bits: CLOSE_DISTANCE },
    ).clamp(Real::zero(), Real::one())
}

/// Mean normalised reach demand, measured from the shoulder.
pub fn reach_strain<
    W: Fn(VoxelCoord) -> Point,
    E: Fn(Real) -> Real,
    L: Fn(Real) -> Real,
    S: Fn(Real) -> Real,
>(
    cells: &Vec<VoxelCoord>,
    geometry: &RobotGeometryConfig,
    locate: &W,
    functions: &Functions<E, L, S>,
) -> (r: Real)
    requires
        functions.everywhere(),
        forall|cell: VoxelCoord| #[trigger] (*locate).requires((cell,)),
    ensures
        forall|place: spec_fn(VoxelCoord) -> Point, model: Model| #[trigger]
            locates(*locate, place) && #[trigger] functions.follow(model) ==> r == reach_of(
                cells@,
                *geometry,
                place,
                model,
            ),
{
    let reach = geometry.upper_arm_length.value.sum(geometry.forearm_length.value).sum(
        geometry.tool_length.value,
    );
    if cells.len() == 0 || reach.le(Real::zero()) {
        return Real::zero();
    }
    let mut total = Real::zero();
    for i in 0..cells.len()
        invariant
            reach == max_reach(*geometry),
            functions.everywhere(),
            forall|cell: VoxelCoord| #[trigger] (*locate).requires((cell,)),
            forall|place: spec_fn(VoxelCoord) -> Point, model: Model| #[trigger]
                locates(*locate, place) && #[trigger] functions.follow(model) ==> total
                    == total_over(
                    cells@.take(i as int),
                    |cell: VoxelCoord| strain_at(place(cell), *geometry, model),
                ),
    {
        let cell = cells[i];
        let point = locate(cell);
        let ghost before = total;
        let found = strain(point, geometry, reach, functions);
        total = total.sum(found);
        assert(cells@.take(i + 1).drop_last() =~= cells@.take(i as int));
        assert forall|place: spec_fn(VoxelCoord) -> Point, model: Model| #[trigger]
            locates(*locate, place) && #[trigger] functions.follow(model) implies total
            == total_over(
            cells@.take(i + 1),
            |cell: VoxelCoord| strain_at(place(cell), *geometry, model),
        ) by {
            let at = |cell: VoxelCoord| strain_at(place(cell), *geometry, model);
            assert((*locate).ensures((cell,), point));
            assert(before == total_over(cells@.take(i as int), at));
            assert(found == at(cell));
        }
    }
    assert(cells@.take(cells@.len() as int) =~= cells@);
    total.divide(Real::of_count(cells.len() as u64))
}

/// Mean closeness of cells to the head's surface.
pub fn head_proximity<
    W: Fn(VoxelCoord) -> Point,
    E: Fn(Real) -> Real,
    L: Fn(Real) -> Real,
    S: Fn(Real) -> Real,
>(
    cells: &Vec<VoxelCoord>,
    voxel: &VoxelConfig,
    locate: &W,
    functions: &Functions<E, L, S>,
) -> (r: Real)
    requires
        functions.everywhere(),
        forall|cell: VoxelCoord| #[trigger] (*locate).requires((cell,)),
    ensures
        forall|place: spec_fn(VoxelCoord) -> Point, model: Model| #[trigger]
            locates(*locate, place) && #[trigger] functions.follow(model) ==> r == proximity_of(
                cells@,
                *voxel,
                place,
                model,
            ),
{
    let zero = Real::zero();
    let is_flat = voxel.head_scale[0].value.le(zero) || voxel.head_scale[1].value.le(zero)
        || voxel.head_scale[2].value.le(zero);
    assert(is_flat == flat(*voxel)) by {
        if is_flat {
            let axis: int = if voxel.head_scale[0].value.at_most(zero) {
                0
            } else if voxel.head_scale[1].value.at_most(zero) {
                1
            } else {
                2
            };
            assert(voxel.head_scale[axis].value.at_most(zero));
        }
    }
    if cells.len() == 0 || is_flat {
        return Real::zero();
    }
    let mut total = Real::zero();
    for i in 0..cells.len()
        invariant
            functions.everywhere(),
            forall|cell: VoxelCoord| #[trigger] (*locate).requires((cell,)),
            forall|place: spec_fn(VoxelCoord) -> Point, model: Model| #[trigger]
                locates(*locate, place) && #[trigger] functions.follow(model) ==> total
                    == total_over(
                    cells@.take(i as int),
                    |cell: VoxelCoord| closeness_at(place(cell), *voxel, model),
                ),
    {
        let cell = cells[i];
        let point = locate(cell);
        let ghost before = total;
        let found = closeness(point, voxel, functions);
        total = total.sum(found);
        assert(cells@.take(i + 1).drop_last() =~= cells@.take(i as int));
        assert forall|place: spec_fn(VoxelCoord) -> Point, model: Model| #[trigger]
            locates(*locate, place) && #[trigger] functions.follow(model) implies total
            == total_over(
            cells@.take(i + 1),
            |cell: VoxelCoord| closeness_at(place(cell), *voxel, model),
        ) by {
            let at = |cell: VoxelCoord| closeness_at(place(cell), *voxel, model);
            assert((*locate).ensures((cell,), point));
            assert(before == total_over(cells@.take(i as int), at));
            assert(found == at(cell));
        }
    }
    assert(cells@.take(cells@.len() as int) =~= cells@);
    total.divide(Real::of_count(cells.len() as u64))
}

fn share_of(part: (usize, usize)) -> (r: Real)
    ensures
        r == share((part.0 as nat, part.1 as nat)),
{
    Real::of_count(part.0 as u64).divide(Real::of_count(part.1 as u64))
}

/// The lattice column of the head's centre along `z`, to the nearest cell.
pub fn head_column(voxel: &VoxelConfig) -> (r: i32)
    ensures
        r == centre_column(*voxel),
{
    voxel.head_center[2].value.subtract(voxel.origin[2].value).divide(voxel.size.value).to_index()
}

impl ChallengeFeatures {
    /// Extract features from a challenge. `locate` tells where a cell lies in space.
    pub fn extract<
        W: Fn(VoxelCoord) -> Point,
        E: Fn(Real) -> Real,
        L: Fn(Real) -> Real,
        S: Fn(Real) -> Real,
    >(challenge: &ChallengeDefinition, locate: &W, functions: &Functions<E, L, S>) -> (r: Self)
        requires
            functions.everywhere(),
            forall|cell: VoxelCoord| #[trigger] (*locate).requires((cell,)),
            forall|i: int|
                0 <= i < challenge.target_hair.voxels@.len() ==> measurable(
                    #[trigger] challenge.target_hair.voxels@[i],
                    centre_column(challenge.voxel_config),
                ),
        ensures
            forall|place: spec_fn(VoxelCoord) -> Point, model: Model| #[trigger]
                locates(*locate, place) && #[trigger] functions.follow(model) ==> describes(
                    r,
                    *challenge,
                    place,
                    model,
                ),
    {
        let initial = challenge.initial_hair.voxels.as_slice();
        let target = challenge.target_hair.voxels.as_slice();
        let counts = shape_counts(initial, target, head_column(&challenge.voxel_config));
        let removed = removal(initial, target);
        let cells = removed.cells();
        let features = ChallengeFeatures {
            removal_volume: functions.ln(
                Real::one().sum(Real::of_count(counts.removed as u64)),
            ),
            boundary_ratio: share_of(counts.boundary_share()),
            asymmetry: share_of(counts.asymmetry_share()),
            reach_strain: reach_strain(
                cells,
                &challenge.robot_config.geometry,
                locate,
                functions,
            ),
            head_proximity: head_proximity(cells, &challenge.voxel_config, locate, functions),
        };
        assert(in_order(cells@));
        features
    }
}

/// Whether a number lies between zero and one.
pub open spec fn is_fraction(x: Real) -> bool {
    (Real { bits: 0 }).at_most(x) && x.at_most(unit())
}

proof fn lemma_total_of_fractions(cells: Seq<VoxelCoord>, measure: spec_fn(VoxelCoord) -> Real)
    requires
        cells.len() <= SIGNIFICAND_BOUND,
        forall|i: int| 0 <= i < cells.len() ==> is_fraction(measure(#[trigger] cells[i])),
    ensures
        !total_over(cells, measure).is_negative(),
        total_over(cells, measure).finite(),
        total_over(cells, measure).at_most(Real::from_count(cells.len())),
    decreases cells.len(),
{
    let zero = Real { bits: 0 };
    law_counts_are_exact(cells.len());
    if cells.len() > 0 {
        let before = cells.drop_last();
        assert forall|i: int| 0 <= i < before.len() implies is_fraction(
            measure(#[trigger] before[i]),
        ) by {
            assert(before[i] == cells[i]);
        }
        lemma_total_of_fractions(before, measure);
        let (sum, count) = (total_over(before, measure), Real::from_count(before.len()));
        let last = measure(cells.last());
        assert(is_fraction(measure(cells[cells.len() - 1])));
        law_counts_are_exact(before.len());
        law_counts_are_exact(1);
        law_adding_stays_a_number(sum, last);
        law_adding_stays_a_number(count, unit());
        law_sums_keep_order(sum, count, last, unit());
        assert(count.plus(unit()) == Real::from_count(cells.len())) by {
            lemma_one_more(before.len());
        }
        lemma_not_negative(sum, last);
    }
}

proof fn lemma_one_more(n: nat)
    requires
        n < SIGNIFICAND_BOUND,
    ensures
        Real::from_count(n).plus(unit()) == Real::from_count(n + 1),
{
    reveal(Real::plus);
    law_counts_are_exact(n);
    law_numbers_are_not_rounded(unit());
    vstd::arithmetic::power2::lemma2_to64();
    vstd::arithmetic::power2::lemma2_to64_rest();
    vstd::arithmetic::power2::lemma_pow2_adds(52, 1022);
    vstd::arithmetic::power2::lemma_pow2_pos(1074);
    let one = pow2(1074);
    assert(unit().steps() == one);
    assert(n * one + one == (n + 1) * one && n * one + one > 0) by (nonlinear_arith)
        requires
            one > 0,
    ;
}

proof fn lemma_not_negative(sum: Real, more: Real)
    requires
        sum.finite(),
        !sum.is_negative(),
        is_fraction(more),
    ensures
        !sum.plus(more).is_negative(),
{
    reveal(Real::plus);
    if more.is_negative() {
        law_numbers_are_not_rounded(Real { bits: 0 });
        assert(more.significand() == 0);
        assert(0 * pow2((more.scale() + 1074) as nat) == 0);
        assert(more.steps() == 0);
    }
}

/// A mean of fractions is a fraction.
pub proof fn law_a_mean_of_fractions_is_one(
    cells: Seq<VoxelCoord>,
    defined: bool,
    measure: spec_fn(VoxelCoord) -> Real,
)
    requires
        cells.len() <= SIGNIFICAND_BOUND,
        forall|i: int| 0 <= i < cells.len() ==> is_fraction(measure(#[trigger] cells[i])),
    ensures
        is_fraction(mean_over(cells, defined, measure)),
{
    if cells.len() > 0 && defined {
        lemma_total_of_fractions(cells, measure);
        let count = Real::from_count(cells.len());
        law_counts_are_exact(cells.len());
        vstd::arithmetic::power2::lemma_pow2_pos(1074);
        assert(cells.len() * pow2(1074) > 0) by (nonlinear_arith)
            requires
                cells.len() > 0,
                pow2(1074) > 0,
        ;
        law_a_part_is_at_most_all(total_over(cells, measure), count);
    }
}

/// A part of what is counted is a fraction.
pub proof fn law_a_share_is_a_fraction(part: nat, whole: nat)
    requires
        part <= whole,
        0 < whole <= SIGNIFICAND_BOUND,
    ensures
        is_fraction(share((part, whole))),
{
    law_counts_are_exact(part);
    law_counts_are_exact(whole);
    let one = pow2(1074);
    vstd::arithmetic::power2::lemma_pow2_pos(1074);
    assert(part * one <= whole * one && whole * one > 0) by (nonlinear_arith)
        requires
            part <= whole,
            whole > 0,
            one > 0,
    ;
    law_encodings_order_numbers(Real::from_count(part), Real::from_count(whole));
    law_a_part_is_at_most_all(Real::from_count(part), Real::from_count(whole));
}

/// All features but the removal volume lie between zero and one, where reach and distance
/// are numbers. No hairstyle has as many cells as the bounds leave out.
pub proof fn law_features_lie_between_zero_and_one(
    features: ChallengeFeatures,
    challenge: ChallengeDefinition,
    place: spec_fn(VoxelCoord) -> Point,
    model: Model,
)
    requires
        describes(features, challenge, place, model),
        challenge.initial_hair.voxels@.len() <= SIGNIFICAND_BOUND,
        2 * challenge.target_hair.voxels@.len() <= SIGNIFICAND_BOUND,
        forall|cell: VoxelCoord|
            !strain_at(
                #[trigger] place(cell),
                challenge.robot_config.geometry,
                model,
            ).not_a_number() && !closeness_at(
                place(cell),
                challenge.voxel_config,
                model,
            ).not_a_number(),
    ensures
        is_fraction(features.boundary_ratio),
        is_fraction(features.asymmetry),
        is_fraction(features.reach_strain),
        is_fraction(features.head_proximity),
{
    let initial = challenge.initial_hair.voxels@.to_set();
    let target = challenge.target_hair.voxels@.to_set();
    let centre = centre_column(challenge.voxel_config);
    let image = reflection(target, centre);
    challenge.initial_hair.voxels@.lemma_cardinality_of_set();
    challenge.target_hair.voxels@.lemma_cardinality_of_set();
    law_boundary_is_part_of_the_target(target);
    target.lemma_map_finite(|cell: VoxelCoord| mirror(cell, centre));
    vstd::set_lib::lemma_map_size_bound(target, image, |cell: VoxelCoord| mirror(cell, centre));
    vstd::set_lib::lemma_len_union(target, image);
    let (removed, kept, boundary, either, both) = counts(initial, target, centre);
    assert(target.intersect(image).subset_of(target.union(image)));
    vstd::set_lib::lemma_len_subset(target.intersect(image), target.union(image));
    if kept == 0 {
        law_a_share_is_a_fraction(0, 1);
    } else {
        law_a_share_is_a_fraction(boundary, kept);
    }
    if either == 0 {
        law_a_share_is_a_fraction(0, 1);
    } else {
        law_a_share_is_a_fraction((either - both) as nat, either);
    }
    let cells = choose|cells: Seq<VoxelCoord>| #[trigger]
        in_order(cells) && cells.to_set() == initial.difference(target) && features.reach_strain
            == reach_of(cells, challenge.robot_config.geometry, place, model)
            && features.head_proximity == proximity_of(
            cells,
            challenge.voxel_config,
            place,
            model,
        );
    assert(cells.no_duplicates());
    cells.unique_seq_to_set();
    vstd::set_lib::lemma_len_difference(initial, target);
    let strain = |cell: VoxelCoord|
        strain_at(place(cell), challenge.robot_config.geometry, model);
    let close = |cell: VoxelCoord| closeness_at(place(cell), challenge.voxel_config, model);
    assert forall|i: int| 0 <= i < cells.len() implies is_fraction(strain(#[trigger] cells[i])) by {
        assert(!strain_at(
            place(cells[i]),
            challenge.robot_config.geometry,
            model,
        ).not_a_number());
    }
    assert forall|i: int| 0 <= i < cells.len() implies is_fraction(close(#[trigger] cells[i])) by {
        assert(!closeness_at(place(cells[i]), challenge.voxel_config, model).not_a_number());
    }
    law_a_mean_of_fractions_is_one(
        cells,
        !max_reach(challenge.robot_config.geometry).at_most(Real { bits: 0 }),
        strain,
    );
    law_a_mean_of_fractions_is_one(cells, !flat(challenge.voxel_config), close);
}


/// A target that is its own mirror image is not asymmetric at all; one that shares no cell with its
/// mirror image is all of it.
pub proof fn law_a_symmetric_target_has_no_asymmetry(
    features: ChallengeFeatures,
    challenge: ChallengeDefinition,
    place: spec_fn(VoxelCoord) -> Point,
    model: Model,
)
    requires
        describes(features, challenge, place, model),
    ensures
        ({
            let target = challenge.target_hair.voxels@.to_set();
            let image = reflection(target, centre_column(challenge.voxel_config));
            &&& image == target && target.len() > 0 ==> features.asymmetry.bits == 0
            &&& target.disjoint(image) && 0 < target.union(image).len() <= SIGNIFICAND_BOUND
                ==> features.asymmetry.bits == 0x3ff0_0000_0000_0000
        }),
{
    let target = challenge.target_hair.voxels@.to_set();
    let image = reflection(target, centre_column(challenge.voxel_config));
    let either = target.union(image).len();
    if image == target && target.len() > 0 {
        assert(target.union(image) =~= target);
        assert(target.intersect(image) =~= target);
        crate::rounding::law_nothing_of_something_is_zero(either);
    }
    if target.disjoint(image) && 0 < either <= SIGNIFICAND_BOUND {
        assert(target.intersect(image) =~= Set::<VoxelCoord>::empty());
        crate::rounding::law_shares_keep_order(either, either, either);
    }
}

/// A challenge that leaves the hair as it is strains nothing and comes close to nothing: the volume to
/// remove is that of no cell.
pub proof fn law_nothing_to_remove_is_no_effort(
    features: ChallengeFeatures,
    challenge: ChallengeDefinition,
    place: spec_fn(VoxelCoord) -> Point,
    model: Model,
)
    requires
        describes(features, challenge, place, model),
        challenge.initial_hair.voxels@.to_set() == challenge.target_hair.voxels@.to_set(),
    ensures
        features.reach_strain.bits == 0,
        features.head_proximity.bits == 0,
        features.removal_volume == (model.logarithm)(unit().plus(Real::from_count(0))),
{
    let initial = challenge.initial_hair.voxels@.to_set();
    let target = challenge.target_hair.voxels@.to_set();
    assert(initial.difference(target) =~= Set::<VoxelCoord>::empty());
    let cells = choose|cells: Seq<VoxelCoord>| #[trigger]
        in_order(cells) && cells.to_set() == initial.difference(target) && features.reach_strain
            == reach_of(cells, challenge.robot_config.geometry, place, model)
            && features.head_proximity == proximity_of(
            cells,
            challenge.voxel_config,
            place,
            model,
        );
    if cells.len() > 0 {
        assert(cells.to_set().contains(cells[0]));
    }
}

/// The distance of a point from the shoulder, as a part of the arm's whole length.
pub open spec fn stretch(point: Point, geometry: RobotGeometryConfig, model: Model) -> Real {
    length(
        point.x.minus(geometry.base_position[0].value),
        point.y.minus(geometry.base_position[1].value.plus(geometry.shoulder_height.value)),
        point.z.minus(geometry.base_position[2].value),
        model,
    ).over(max_reach(geometry))
}

/// Up to seven tenths of the arm's length there is no strain, and stretching further never strains
/// less.
pub proof fn law_stretching_further_strains_no_less(
    near: Point,
    far: Point,
    geometry: RobotGeometryConfig,
    model: Model,
)
    requires
        stretch(near, geometry, model).at_most(stretch(far, geometry, model)),
    ensures
        strain_at(near, geometry, model).at_most(strain_at(far, geometry, model)),
        stretch(far, geometry, model).at_most(Real { bits: 0x3fe6_6666_6666_6666 }) ==> strain_at(
            far,
            geometry,
            model,
        ).equals(Real { bits: 0 }),
{
    let (easy, hard) = (Real { bits: 0x3fe6_6666_6666_6666 }, Real { bits: 0x3fd3_3333_3333_3333 });
    let (x, y) = (stretch(near, geometry, model), stretch(far, geometry, model));
    lemma_less_keeps_order(x, y, easy);
    law_quotients_keep_order(x.minus(easy), y.minus(easy), hard);
    if y.at_most(easy) {
        lemma_less_keeps_order(y, easy, easy);
        law_a_number_less_itself_is_nothing(easy);
        law_quotients_keep_order(y.minus(easy), easy.minus(easy), hard);
    }
}

/// From eight fifths of the head's radius on nothing is close, and what lies further out is never
/// closer.
pub proof fn law_further_out_is_no_closer(
    inner: Point,
    outer: Point,
    voxel: VoxelConfig,
    model: Model,
)
    requires
        radius_at(inner, voxel, model).at_most(radius_at(outer, voxel, model)),
    ensures
        closeness_at(outer, voxel, model).at_most(closeness_at(inner, voxel, model)),
        (Real { bits: 0x3ff9_9999_9999_999a }).at_most(radius_at(inner, voxel, model))
            ==> closeness_at(inner, voxel, model).equals(Real { bits: 0 }),
{
    let (clear, close) = (Real { bits: 0x3ff9_9999_9999_999a }, Real { bits: 0x3fe3_3333_3333_3333 });
    let (x, y) = (radius_at(inner, voxel, model), radius_at(outer, voxel, model));
    lemma_less_of_more(clear, x, y);
    law_quotients_keep_order(clear.minus(y), clear.minus(x), close);
    if clear.at_most(x) {
        lemma_less_of_more(clear, clear, x);
        law_a_number_less_itself_is_nothing(clear);
        law_quotients_keep_order(clear.minus(x), clear.minus(clear), close);
    }
}

proof fn lemma_less_keeps_order(x: Real, y: Real, less: Real)
    requires
        x.at_most(y),
        less.finite(),
    ensures
        x.minus(less).at_most(y.minus(less)),
{
    let z = less.opposite();
    assert(x.plus(z) == z.plus(x) && y.plus(z) == z.plus(y)) by {
        reveal(Real::plus);
    }
    crate::rounding::lemma_more_keeps_order(z, x, y);
}

proof fn lemma_less_of_more(from: Real, x: Real, y: Real)
    requires
        x.at_most(y),
        from.finite(),
    ensures
        from.minus(y).at_most(from.minus(x)),
{
    assert(y.opposite().at_most(x.opposite()));
    crate::rounding::lemma_more_keeps_order(from, y.opposite(), x.opposite());
}


/// The arm reaches as far as its three parts together; and the head's middle column, with cells of
/// size one, lies as far from the origin as the head's centre does.
pub proof fn law_reach_and_middle_are_measured_in_full(
    geometry: RobotGeometryConfig,
    voxel: VoxelConfig,
    upper: int,
    lower: int,
    tool: int,
    centre: int,
    origin: int,
)
    requires
        geometry.upper_arm_length.value.is_number(upper),
        geometry.forearm_length.value.is_number(lower),
        geometry.tool_length.value.is_number(tool),
        voxel.size.value.bits == 0x3ff0_0000_0000_0000,
        voxel.head_center[2].value.is_number(centre),
        voxel.origin[2].value.is_number(origin),
        0 <= upper <= 1_000_000,
        0 <= lower <= 1_000_000,
        0 <= tool <= 1_000_000,
        -1_000_000 <= centre <= 1_000_000,
        -1_000_000 <= origin <= 1_000_000,
    ensures
        max_reach(geometry).is_number(upper + lower + tool),
        centre_column(voxel) == centre - origin,
{
    let (a, b) = (geometry.upper_arm_length.value, geometry.forearm_length.value);
    crate::rounding::law_whole_numbers_are_added_exactly(a, b, upper, lower);
    crate::rounding::law_whole_numbers_are_added_exactly(
        a.plus(b),
        geometry.tool_length.value,
        upper + lower,
        tool,
    );
    let (c, o) = (voxel.head_center[2].value, voxel.origin[2].value);
    crate::rounding::law_whole_numbers_are_added_exactly(c, o, centre, origin);
    crate::rounding::lemma_over_one(c.minus(o));
    crate::rounding::lemma_nearest_of_whole(c.minus(o), centre - origin);
}

/// A head without an extent along any one of its axes is flat, and nothing is close to it.
pub proof fn law_nothing_is_close_to_a_flat_head(
    cells: Seq<VoxelCoord>,
    voxel: VoxelConfig,
    place: spec_fn(VoxelCoord) -> Point,
    model: Model,
    axis: int,
)
    requires
        0 <= axis < 3,
        voxel.head_scale[axis].value.at_most(Real { bits: 0 }),
    ensures
        flat(voxel),
        proximity_of(cells, voxel, place, model).bits == 0,
{
    assert(voxel.head_scale[axis].value.at_most(Real { bits: 0 }));
}

}
