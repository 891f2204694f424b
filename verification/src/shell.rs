//! The hair that a generated challenge starts from: a shell over the crown and the sides
//! of the head.

use crate::domain::{VoxelConfig, VoxelCoord};
use crate::features::{head_radius, radius_at, Point};
use crate::likelihood::{unit, Functions, Model};
use crate::number::Real;
use crate::voxels::{
    cells_between, in_order, keep_marked, law_marked_cells_keep_their_order, marked, within,
};
use vstd::arithmetic::power2::pow2;
use vstd::prelude::*;

verus! {

/// Three.
pub const THREE: u64 = 0x4008_0000_0000_0000;

/// How far below the head's centre hair grows, as a part of its height: 0.35.
pub const JAW: u64 = 0x3fd6_6666_6666_6666;

/// How many cells around the shell are searched.
pub const SLACK: i32 = 2;

/// How thick a cap of some layers is, in head radii, so that it means the same on every
/// axis of the head.
pub open spec fn thickness(voxel: VoxelConfig, cap_thickness: Real) -> Real {
    cap_thickness.times(voxel.size.value).over(
        voxel.head_scale[0].value.plus(voxel.head_scale[1].value).plus(
            voxel.head_scale[2].value,
        ).over(Real { bits: THREE }),
    )
}

/// The centre of a cell.
pub open spec fn centre_of(cell: VoxelCoord, voxel: VoxelConfig) -> Point {
    let size = voxel.size.value;
    Point {
        x: voxel.origin[0].value.plus(Real::from_whole(cell.x as int).times(size)),
        y: voxel.origin[1].value.plus(Real::from_whole(cell.y as int).times(size)),
        z: voxel.origin[2].value.plus(Real::from_whole(cell.z as int).times(size)),
    }
}

/// The height of the jaw: hair grows on the crown and the sides, not under it.
pub open spec fn jaw(voxel: VoxelConfig) -> Real {
    voxel.head_center[1].value.minus((Real { bits: JAW }).times(voxel.head_scale[1].value))
}

/// Whether hair of a cap grows in a cell: not under the jaw, not inside the skull, and not
/// beyond the shell.
pub open spec fn is_hair(
    cell: VoxelCoord,
    voxel: VoxelConfig,
    cap_thickness: Real,
    model: Model,
) -> bool {
    let point = centre_of(cell, voxel);
    let radius = radius_at(point, voxel, model);
    &&& !point.y.below(jaw(voxel))
    &&& !radius.below(unit())
    &&& !unit().plus(thickness(voxel, cap_thickness)).below(radius)
}

/// How many cells from its centre the head's shell can reach along an axis.
pub open spec fn extent(voxel: VoxelConfig, cap_thickness: Real, axis: int) -> int {
    voxel.head_scale[axis].value.times(unit().plus(thickness(voxel, cap_thickness))).over(
        voxel.size.value,
    ).ceiling_index() + SLACK
}

/// The cell at the head's centre, along an axis.
pub open spec fn middle(voxel: VoxelConfig, axis: int) -> int {
    voxel.head_center[axis].value.minus(voxel.origin[axis].value).over(
        voxel.size.value,
    ).nearest_index()
}

/// Whether the cells that a cap can reach along an axis have coordinates.
pub open spec fn spans(voxel: VoxelConfig, cap_thickness: Real, axis: int) -> bool {
    let reach = extent(voxel, cap_thickness, axis);
    &&& i32::MIN <= middle(voxel, axis) - reach <= i32::MAX
    &&& i32::MIN <= middle(voxel, axis) + reach <= i32::MAX
}

/// Whether the cells that a cap can reach have coordinates.
pub open spec fn fits(voxel: VoxelConfig, cap_thickness: Real) -> bool {
    spans(voxel, cap_thickness, 0) && spans(voxel, cap_thickness, 1) && spans(
        voxel,
        cap_thickness,
        2,
    )
}

/// The corner of the cells that a cap can reach.
pub open spec fn corner(voxel: VoxelConfig, cap_thickness: Real, sign: int) -> VoxelCoord {
    VoxelCoord {
        x: (middle(voxel, 0) + sign * extent(voxel, cap_thickness, 0)) as i32,
        y: (middle(voxel, 1) + sign * extent(voxel, cap_thickness, 1)) as i32,
        z: (middle(voxel, 2) + sign * extent(voxel, cap_thickness, 2)) as i32,
    }
}

/// Whether cells are those of a list that a cap's hair grows in, in their order.
pub open spec fn grows_in(
    hair: Seq<VoxelCoord>,
    cells: Seq<VoxelCoord>,
    voxel: VoxelConfig,
    cap_thickness: Real,
    model: Model,
) -> bool {
    hair == marked(
        cells,
        Seq::new(cells.len(), |i: int| is_hair(cells[i], voxel, cap_thickness, model)),
    )
}

/// Whether cells are the hair of a cap: those it grows in, of all that it can reach, in
/// order.
pub open spec fn is_shell(
    hair: Seq<VoxelCoord>,
    voxel: VoxelConfig,
    cap_thickness: Real,
    model: Model,
) -> bool {
    exists|cells: Seq<VoxelCoord>|
        {
            &&& in_order(cells)
            &&& forall|cell: VoxelCoord| #[trigger]
                cells.contains(cell) <==> within(
                    cell,
                    corner(voxel, cap_thickness, -1),
                    corner(voxel, cap_thickness, 1),
                )
            &&& #[trigger] grows_in(hair, cells, voxel, cap_thickness, model)
        }
}

fn measure_thickness(voxel: &VoxelConfig, cap_thickness: Real) -> (r: Real)
    ensures
        r == thickness(*voxel, cap_thickness),
{
    let mean = voxel.head_scale[0].value.sum(voxel.head_scale[1].value).sum(
        voxel.head_scale[2].value,
    ).divide(Real { bits: THREE });
    cap_thickness.multiply(voxel.size.value).divide(mean)
}

/// The coordinates along an axis that a cap can reach, if they are coordinates.
fn span(voxel: &VoxelConfig, cap_thickness: Real, axis: usize) -> (r: Option<(i32, i32)>)
    requires
        axis < 3,
    ensures
        match r {
            Some((low, high)) => spans(*voxel, cap_thickness, axis as int) && low == middle(
                *voxel,
                axis as int,
            ) - extent(*voxel, cap_thickness, axis as int) && high == middle(*voxel, axis as int)
                + extent(*voxel, cap_thickness, axis as int),
            None => !spans(*voxel, cap_thickness, axis as int),
        },
{
    let size = voxel.size.value;
    let wide = voxel.head_scale[axis].value.multiply(
        Real::one().sum(measure_thickness(voxel, cap_thickness)),
    );
    let reach: i64 = wide.divide(size).to_ceiling_index() as i64 + SLACK as i64;
    let offset = voxel.head_center[axis].value.subtract(voxel.origin[axis].value);
    let centre: i64 = offset.divide(size).to_index() as i64;
    let (low, high): (i64, i64) = (centre - reach, centre + reach);
    let (least, most): (i64, i64) = (i32::MIN as i64, i32::MAX as i64);
    if least <= low && low <= most && least <= high && high <= most {
        Some((low as i32, high as i32))
    } else {
        None
    }
}

/// The corners of the cells that a cap can reach; none if they have no coordinates.
pub fn corners(voxel: &VoxelConfig, cap_thickness: Real) -> (r: Option<(VoxelCoord, VoxelCoord)>)
    ensures
        r == if fits(*voxel, cap_thickness) {
            Some((corner(*voxel, cap_thickness, -1), corner(*voxel, cap_thickness, 1)))
        } else {
            None
        },
{
    let (x, y, z) = match (
        span(voxel, cap_thickness, 0),
        span(voxel, cap_thickness, 1),
        span(voxel, cap_thickness, 2),
    ) {
        (Some(x), Some(y), Some(z)) => (x, y, z),
        _ => {
            return None;
        },
    };
    Some((VoxelCoord { x: x.0, y: y.0, z: z.0 }, VoxelCoord { x: x.1, y: y.1, z: z.1 }))
}

/// The centre of a cell.
pub fn cell_centre(cell: VoxelCoord, voxel: &VoxelConfig) -> (r: Point)
    ensures
        r == centre_of(cell, *voxel),
{
    let size = voxel.size.value;
    Point {
        x: voxel.origin[0].value.sum(Real::of_whole(cell.x).multiply(size)),
        y: voxel.origin[1].value.sum(Real::of_whole(cell.y).multiply(size)),
        z: voxel.origin[2].value.sum(Real::of_whole(cell.z).multiply(size)),
    }
}

fn grows<E: Fn(Real) -> Real, L: Fn(Real) -> Real, S: Fn(Real) -> Real>(
    cell: VoxelCoord,
    voxel: &VoxelConfig,
    cap_thickness: Real,
    functions: &Functions<E, L, S>,
) -> (r: bool)
    requires
        functions.everywhere(),
    ensures
        forall|model: Model| #[trigger]
            functions.follow(model) ==> r == is_hair(cell, *voxel, cap_thickness, model),
{
    let point = cell_centre(cell, voxel);
    let jaw = voxel.head_center[1].value.subtract(
        (Real { bits: JAW }).multiply(voxel.head_scale[1].value),
    );
    let radius = head_radius(point, voxel, functions);
    !point.y.lt(jaw) && !radius.lt(Real::one()) && !Real::one().sum(
        measure_thickness(voxel, cap_thickness),
    ).lt(radius)
}

/// The hair of a cap of some layers; none if it has no room on the lattice.
pub fn shell<E: Fn(Real) -> Real, L: Fn(Real) -> Real, S: Fn(Real) -> Real>(
    voxel: &VoxelConfig,
    cap_thickness: Real,
    functions: &Functions<E, L, S>,
) -> (r: Option<Vec<VoxelCoord>>)
    requires
        functions.everywhere(),
    ensures
        r is Some == fits(*voxel, cap_thickness),
        forall|model: Model| #[trigger]
            functions.follow(model) ==> (r matches Some(hair) ==> is_shell(
                hair@,
                *voxel,
                cap_thickness,
                model,
            )),
{
    let (low, high) = match corners(voxel, cap_thickness) {
        Some(corners) => corners,
        None => {
            return None;
        },
    };
    let cells = cells_between(low, high);
    let mut marks: Vec<bool> = Vec::new();
    for i in 0..cells.len()
        invariant
            functions.everywhere(),
            marks@.len() == i,
            forall|model: Model, j: int|
                #![trigger functions.follow(model), marks@[j]]
                functions.follow(model) && 0 <= j < i ==> marks@[j] == is_hair(
                    cells@[j],
                    *voxel,
                    cap_thickness,
                    model,
                ),
    {
        marks.push(grows(cells[i], voxel, cap_thickness, functions));
    }
    let hair = keep_marked(&cells, &marks);
    assert forall|model: Model| #[trigger] functions.follow(model) implies is_shell(
        hair@,
        *voxel,
        cap_thickness,
        model,
    ) by {
        assert(marks@ =~= Seq::new(
            cells@.len(),
            |i: int| is_hair(cells@[i], *voxel, cap_thickness, model),
        ));
        assert(grows_in(hair@, cells@, *voxel, cap_thickness, model));
    }
    Some(hair)
}

/// A shell is in order, and its cells are the ones within reach that hair grows in.
pub proof fn law_a_shell_holds_what_grows(
    hair: Seq<VoxelCoord>,
    voxel: VoxelConfig,
    cap_thickness: Real,
    model: Model,
    cell: VoxelCoord,
)
    requires
        is_shell(hair, voxel, cap_thickness, model),
    ensures
        in_order(hair),
        hair.contains(cell) <==> is_hair(cell, voxel, cap_thickness, model) && within(
            cell,
            corner(voxel, cap_thickness, -1),
            corner(voxel, cap_thickness, 1),
        ),
{
    let cells = choose|cells: Seq<VoxelCoord>|
        {
            &&& in_order(cells)
            &&& forall|cell: VoxelCoord| #[trigger]
                cells.contains(cell) <==> within(
                    cell,
                    corner(voxel, cap_thickness, -1),
                    corner(voxel, cap_thickness, 1),
                )
            &&& #[trigger] grows_in(hair, cells, voxel, cap_thickness, model)
        };
    let marks = Seq::new(cells.len(), |i: int| is_hair(cells[i], voxel, cap_thickness, model));
    law_marked_cells_keep_their_order(cells, marks);
    if hair.contains(cell) {
        let i = choose|i: int| 0 <= i < cells.len() && #[trigger] cells[i] == cell && marks[i];
        assert(cells.contains(cell));
    }
    if cells.contains(cell) && is_hair(cell, voxel, cap_thickness, model) {
        let i = choose|i: int| 0 <= i < cells.len() && cells[i] == cell;
        assert(cells[i] == cell && marks[i]);
    }
}


/// Hair grows on the head and around it: never in a cell whose centre lies inside the head or below
/// the jaw, which is seven twentieths of the head's height beneath its middle.
pub proof fn law_no_hair_inside_the_head_or_below_the_jaw(
    cell: VoxelCoord,
    voxel: VoxelConfig,
    cap_thickness: Real,
    model: Model,
)
    requires
        is_hair(cell, voxel, cap_thickness, model),
    ensures
        !radius_at(centre_of(cell, voxel), voxel, model).below(Real { bits: 0x3ff0_0000_0000_0000 }),
        !centre_of(cell, voxel).y.below(
            voxel.head_center[1].value.minus(
                (Real { bits: 0x3fd6_6666_6666_6666 }).times(voxel.head_scale[1].value),
            ),
        ),
{
}

/// Where a thicker cap is thicker by the measure of the head, hair that grows in a thin cap grows in
/// it too.
pub proof fn law_thicker_caps_hold_more(
    cell: VoxelCoord,
    voxel: VoxelConfig,
    thin: Real,
    thick: Real,
    model: Model,
)
    requires
        is_hair(cell, voxel, thin, model),
        thickness(voxel, thin).at_most(thickness(voxel, thick)),
    ensures
        is_hair(cell, voxel, thick, model),
{
    crate::rounding::lemma_more_keeps_order(
        unit(),
        thickness(voxel, thin),
        thickness(voxel, thick),
    );
}

/// The centres of two cells lie as many cell sizes apart on each axis as the cells are apart, from the
/// origin on.
pub proof fn law_cells_lie_a_size_apart(
    cell: VoxelCoord,
    voxel: VoxelConfig,
    size: int,
    x: int,
    y: int,
    z: int,
)
    requires
        voxel.size.value.is_number(size),
        voxel.origin[0].value.is_number(x),
        voxel.origin[1].value.is_number(y),
        voxel.origin[2].value.is_number(z),
        0 <= size <= 1000,
        -1000 <= x <= 1000,
        -1000 <= y <= 1000,
        -1000 <= z <= 1000,
    ensures
        centre_of(cell, voxel).x.is_number(x + cell.x * size),
        centre_of(cell, voxel).y.is_number(y + cell.y * size),
        centre_of(cell, voxel).z.is_number(z + cell.z * size),
{
    lemma_place_on_axis(voxel.origin[0].value, voxel.size.value, x, cell.x as int, size);
    lemma_place_on_axis(voxel.origin[1].value, voxel.size.value, y, cell.y as int, size);
    lemma_place_on_axis(voxel.origin[2].value, voxel.size.value, z, cell.z as int, size);
}

proof fn lemma_place_on_axis(origin: Real, step: Real, from: int, n: int, size: int)
    requires
        origin.is_number(from),
        step.is_number(size),
        -1000 <= from <= 1000,
        0 <= size <= 1000,
        i32::MIN <= n <= i32::MAX,
    ensures
        origin.plus(Real::from_whole(n).times(step)).is_number(from + n * size),
{
    assert(-3_000_000_000_000 <= n * size <= 3_000_000_000_000) by (nonlinear_arith)
        requires
            -2147483648 <= n <= 2147483647,
            0 <= size <= 1000,
    ;
    crate::rounding::lemma_whole_is_a_number(n);
    crate::rounding::law_whole_numbers_are_multiplied_exactly(Real::from_whole(n), step, n, size);
    crate::rounding::law_whole_numbers_are_added_exactly(
        origin,
        Real::from_whole(n).times(step),
        from,
        n * size,
    );
}


/// Hair is looked for far enough out: beyond the outermost radius of the cap, with two cells to spare,
/// on each axis.
pub proof fn law_the_search_reaches_beyond_the_cap(voxel: VoxelConfig, cap_thickness: Real, axis: int)
    requires
        0 <= axis < 3,
        ({
            let cells = voxel.head_scale[axis].value.times(
                unit().plus(thickness(voxel, cap_thickness)),
            ).over(voxel.size.value);
            cells.finite() && !cells.is_negative() && cells.signed_steps() <= 1_000_000 * pow2(1074)
        }),
    ensures
        ({
            let cells = voxel.head_scale[axis].value.times(
                unit().plus(thickness(voxel, cap_thickness)),
            ).over(voxel.size.value);
            (extent(voxel, cap_thickness, axis) - 2) * pow2(1074) >= cells.signed_steps()
        }),
{
    let cells = voxel.head_scale[axis].value.times(
        unit().plus(thickness(voxel, cap_thickness)),
    ).over(voxel.size.value);
    crate::rounding::law_rounding_to_whole_numbers(cells);
    let one = pow2(1074) as int;
    vstd::arithmetic::power2::lemma_pow2_pos(1074);
    let c = cells.ceiling();
    assert(c < 1_000_002) by (nonlinear_arith)
        requires
            c * one - cells.signed_steps() < one,
            cells.signed_steps() <= 1_000_000 * one,
            one > 0,
    ;
    assert(c >= 0) by (nonlinear_arith)
        requires
            c * one >= cells.signed_steps(),
            cells.signed_steps() >= 0,
            one > 0,
    ;
}

/// The middle of the lattice is the cell at the middle of the head: with cells of size one it lies as
/// many cells from the origin as the head's centre lies from it.
pub proof fn law_the_middle_cell_is_the_heads(voxel: VoxelConfig, axis: int, centre: int, origin: int)
    requires
        0 <= axis < 3,
        voxel.size.value.bits == 0x3ff0_0000_0000_0000,
        voxel.head_center[axis].value.is_number(centre),
        voxel.origin[axis].value.is_number(origin),
        -1_000_000 <= centre <= 1_000_000,
        -1_000_000 <= origin <= 1_000_000,
    ensures
        middle(voxel, axis) == centre - origin,
{
    let (a, b) = (voxel.head_center[axis].value, voxel.origin[axis].value);
    crate::rounding::law_whole_numbers_are_added_exactly(a, b, centre, origin);
    crate::rounding::lemma_over_one(a.minus(b));
    crate::rounding::lemma_nearest_of_whole(a.minus(b), centre - origin);
}

/// A cap is as thick as so many cells on a head whose three extents make up three, however they are
/// shared out.
pub proof fn law_thickness_is_measured_by_the_mean_extent(
    voxel: VoxelConfig,
    cap_thickness: Real,
    cells: int,
    size: int,
    width: int,
    height: int,
    depth: int,
)
    requires
        cap_thickness.is_number(cells),
        voxel.size.value.is_number(size),
        voxel.head_scale[0].value.is_number(width),
        voxel.head_scale[1].value.is_number(height),
        voxel.head_scale[2].value.is_number(depth),
        width + height + depth == 3,
        0 <= cells <= 1_000,
        0 <= size <= 1_000,
        0 <= width <= 3,
        0 <= height <= 3,
    ensures
        thickness(voxel, cap_thickness).is_number(cells * size),
{
    let (a, b, c) = (
        voxel.head_scale[0].value,
        voxel.head_scale[1].value,
        voxel.head_scale[2].value,
    );
    let three = Real { bits: THREE };
    assert(0 <= cells * size <= 1_000_000) by (nonlinear_arith)
        requires
            0 <= cells <= 1_000,
            0 <= size <= 1_000,
    ;
    crate::rounding::law_whole_numbers_are_multiplied_exactly(
        cap_thickness,
        voxel.size.value,
        cells,
        size,
    );
    crate::rounding::law_whole_numbers_are_added_exactly(a, b, width, height);
    crate::rounding::law_whole_numbers_are_added_exactly(a.plus(b), c, width + height, depth);
    crate::rounding::lemma_three();
    crate::rounding::lemma_same_number(a.plus(b).plus(c), three, 3);
    crate::rounding::law_parts_keep_order(three, three, three);
    crate::rounding::lemma_over_one(cap_thickness.times(voxel.size.value));
}

}
