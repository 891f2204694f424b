//! Sets of lattice cells.

use crate::domain::VoxelCoord;
use vstd::prelude::*;

verus! {

/// Where a cell stands in the order of all cells: by `x`, and `y`, and `z`.
pub open spec fn place(cell: VoxelCoord) -> int {
    cell.x as int * 0x4_0000_0000_0000_0000 + cell.y as int * 0x2_0000_0000 + cell.z as int
}

/// Whether cells stand in order, none of them twice.
pub open spec fn in_order(cells: Seq<VoxelCoord>) -> bool {
    forall|i: int, j: int| 0 <= i < j < cells.len() ==> place(#[trigger] cells[i]) < place(#[trigger] cells[j])
}

/// Cells in the same place are the same cell.
pub proof fn law_places_tell_cells_apart(a: VoxelCoord, b: VoxelCoord)
    ensures
        place(a) == place(b) ==> a == b,
        place(a) < place(b) <==> (a.x < b.x || (a.x == b.x && (a.y < b.y || (a.y == b.y && a.z < b.z)))),
{
}

fn comes_before(a: VoxelCoord, b: VoxelCoord) -> (r: bool)
    ensures
        r == (place(a) < place(b)),
{
    a.x < b.x || (a.x == b.x && (a.y < b.y || (a.y == b.y && a.z < b.z)))
}

/// The cell on the other side of the plane at `centre` along `z`.
pub open spec fn mirror(cell: VoxelCoord, centre: int) -> VoxelCoord {
    VoxelCoord { z: (2 * centre - cell.z) as i32, ..cell }
}

/// Whether two cells share a face.
pub open spec fn adjacent(a: VoxelCoord, b: VoxelCoord) -> bool {
    ||| a.y == b.y && a.z == b.z && (a.x - b.x == 1 || b.x - a.x == 1)
    ||| a.x == b.x && a.z == b.z && (a.y - b.y == 1 || b.y - a.y == 1)
    ||| a.x == b.x && a.y == b.y && (a.z - b.z == 1 || b.z - a.z == 1)
}

/// Whether a cell has a neighbour outside of a set.
pub open spec fn exposed(cells: Set<VoxelCoord>, cell: VoxelCoord) -> bool {
    exists|other: VoxelCoord| #[trigger] adjacent(cell, other) && !cells.contains(other)
}

/// Whether every neighbour of a cell is a cell.
pub open spec fn interior(cell: VoxelCoord) -> bool {
    &&& i32::MIN < cell.x < i32::MAX
    &&& i32::MIN < cell.y < i32::MAX
    &&& i32::MIN < cell.z < i32::MAX
}

/// A set of cells.
#[derive(Debug)]
pub struct VoxelSet {
    cells: Vec<VoxelCoord>,
}

impl View for VoxelSet {
    type V = Set<VoxelCoord>;

    closed spec fn view(&self) -> Set<VoxelCoord> {
        self.cells@.to_set()
    }
}

proof fn lemma_cells_count(cells: Seq<VoxelCoord>)
    requires
        in_order(cells),
    ensures
        cells.no_duplicates(),
        cells.to_set().finite(),
        cells.to_set().len() == cells.len(),
{
    assert(cells.no_duplicates());
    cells.unique_seq_to_set();
    vstd::seq_lib::seq_to_set_is_finite(cells);
}

proof fn lemma_push_to_set(cells: Seq<VoxelCoord>, cell: VoxelCoord)
    ensures
        cells.push(cell).to_set() == cells.to_set().insert(cell),
{
    let after = cells.push(cell);
    assert forall|c: VoxelCoord| after.to_set().contains(c) <==> cells.to_set().insert(cell).contains(c) by {
        if after.contains(c) {
            let i = choose|i: int| 0 <= i < after.len() && after[i] == c;
            if i < cells.len() {
                assert(cells[i] == c);
            }
        }
        if cells.contains(c) {
            let i = choose|i: int| 0 <= i < cells.len() && cells[i] == c;
            assert(after[i] == c);
        }
        assert(after[cells.len() as int] == cell);
    }
    assert(after.to_set() =~= cells.to_set().insert(cell));
}

impl VoxelSet {
    #[verifier::type_invariant]
    spec fn wf(self) -> bool {
        in_order(self.cells@)
    }

    /// The cells, in order.
    pub closed spec fn listing(self) -> Seq<VoxelCoord> {
        self.cells@
    }

    /// The empty set.
    pub fn new() -> (r: VoxelSet)
        ensures
            r@ == Set::<VoxelCoord>::empty(),
    {
        let r = VoxelSet { cells: Vec::new() };
        assert(r@ =~= Set::<VoxelCoord>::empty());
        r
    }

    /// The set of some cells.
    pub fn of(cells: &[VoxelCoord]) -> (r: VoxelSet)
        ensures
            r@ == cells@.to_set(),
    {
        let mut set = VoxelSet::new();
        assert(cells@.take(0).to_set() =~= Set::<VoxelCoord>::empty());
        for i in 0..cells.len()
            invariant
                set@ == cells@.take(i as int).to_set(),
        {
            set.insert(cells[i]);
            proof {
                lemma_push_to_set(cells@.take(i as int), cells@[i as int]);
                assert(cells@.take(i + 1) =~= cells@.take(i as int).push(cells@[i as int]));
            }
        }
        assert(cells@.take(cells@.len() as int) =~= cells@);
        set
    }

    /// The cells, in order.
    pub fn cells(&self) -> (r: &Vec<VoxelCoord>)
        ensures
            r@ == self.listing(),
            in_order(r@),
            r@.to_set() == self@,
    {
        proof {
            use_type_invariant(self);
        }
        &self.cells
    }

    /// How many cells the set holds.
    pub fn len(&self) -> (r: usize)
        ensures
            r == self@.len(),
            self@.finite(),
    {
        proof {
            use_type_invariant(self);
            lemma_cells_count(self.cells@);
        }
        self.cells.len()
    }

    /// Whether the set holds no cell.
    pub fn is_empty(&self) -> (r: bool)
        ensures
            r == (self@ == Set::<VoxelCoord>::empty()),
    {
        let empty = self.cells.len() == 0;
        proof {
            if empty {
                assert(self@ =~= Set::<VoxelCoord>::empty());
            } else {
                assert(self@.contains(self.cells@[0]));
            }
        }
        empty
    }

    /// How many cells of the set come before one.
    fn rank(&self, cell: VoxelCoord) -> (r: usize)
        ensures
            r <= self.cells@.len(),
            forall|i: int| 0 <= i < r ==> place(#[trigger] self.cells@[i]) < place(cell),
            forall|i: int| r <= i < self.cells@.len() ==> place(cell) <= place(#[trigger] self.cells@[i]),
    {
        proof {
            use_type_invariant(self);
        }
        let mut low: usize = 0;
        let mut high: usize = self.cells.len();
        while low < high
            invariant
                low <= high <= self.cells@.len(),
                in_order(self.cells@),
                forall|i: int| 0 <= i < low ==> place(#[trigger] self.cells@[i]) < place(cell),
                forall|i: int|
                    high <= i < self.cells@.len() ==> place(cell) <= place(#[trigger] self.cells@[i]),
            decreases high - low,
        {
            let middle: usize = low + (high - low) / 2;
            if comes_before(self.cells[middle], cell) {
                low = middle + 1;
            } else {
                high = middle;
            }
        }
        low
    }

    /// Whether the set holds a cell.
    pub fn contains(&self, cell: VoxelCoord) -> (r: bool)
        ensures
            r == self@.contains(cell),
    {
        let at: usize = self.rank(cell);
        let found = at < self.cells.len() && self.cells[at] == cell;
        proof {
            use_type_invariant(self);
            if self@.contains(cell) {
                let i = choose|i: int| 0 <= i < self.cells@.len() && self.cells@[i] == cell;
                law_places_tell_cells_apart(self.cells@[at as int], cell);
                assert(place(self.cells@[i]) == place(cell));
            }
        }
        found
    }

    /// Add a cell.
    pub fn insert(&mut self, cell: VoxelCoord)
        ensures
            final(self)@ == old(self)@.insert(cell),
    {
        proof {
            use_type_invariant(&*self);
        }
        if self.contains(cell) {
            assert(self@.insert(cell) =~= self@);
            return ;
        }
        let at: usize = self.rank(cell);
        let ghost before = self.cells@;
        let mut cells: Vec<VoxelCoord> = Vec::new();
        std::mem::swap(&mut cells, &mut self.cells);
        cells.insert(at, cell);
        proof {
            let after = cells@;
            assert(after == before.insert(at as int, cell));
            assert forall|i: int, j: int| 0 <= i < j < after.len() implies place(#[trigger] after[i]) < place(
                #[trigger] after[j],
            ) by {
                let p = if i < at {
                    i
                } else {
                    i - 1
                };
                let q = if j < at {
                    j
                } else {
                    j - 1
                };
                if i != at {
                    assert(after[i] == before[p]);
                }
                if j != at {
                    assert(after[j] == before[q]);
                }
                if i == at {
                    assert(before.contains(before[q]));
                    law_places_tell_cells_apart(before[q], cell);
                }
            }
            assert forall|c: VoxelCoord| after.to_set().contains(c) <==> before.to_set().insert(cell).contains(
                c,
            ) by {
                if after.contains(c) {
                    let i = choose|i: int| 0 <= i < after.len() && after[i] == c;
                    if i < at {
                        assert(before[i] == c);
                    } else if i > at {
                        assert(before[i - 1] == c);
                    }
                }
                if before.contains(c) {
                    let i = choose|i: int| 0 <= i < before.len() && before[i] == c;
                    if i < at {
                        assert(after[i] == c);
                    } else {
                        assert(after[i + 1] == c);
                    }
                }
                assert(after[at as int] == cell);
            }
            assert(after.to_set() =~= before.to_set().insert(cell));
        }
        self.cells = cells;
    }

    /// The cells that another set does not hold.
    pub fn difference(&self, other: &VoxelSet) -> (r: VoxelSet)
        ensures
            r@ == self@.difference(other@),
    {
        let mut out = VoxelSet::new();
        assert(self.cells@.take(0).to_set() =~= Set::<VoxelCoord>::empty());
        assert(out@ =~= self.cells@.take(0).to_set().difference(other@));
        for i in 0..self.cells.len()
            invariant
                out@ == self.cells@.take(i as int).to_set().difference(other@),
        {
            let cell = self.cells[i];
            proof {
                lemma_push_to_set(self.cells@.take(i as int), cell);
                assert(self.cells@.take(i + 1) =~= self.cells@.take(i as int).push(cell));
            }
            if !other.contains(cell) {
                out.insert(cell);
            }
            assert(out@ =~= self.cells@.take(i + 1).to_set().difference(other@));
        }
        assert(self.cells@.take(self.cells@.len() as int) =~= self.cells@);
        out
    }

    /// The cells that another set holds too.
    pub fn intersection(&self, other: &VoxelSet) -> (r: VoxelSet)
        ensures
            r@ == self@.intersect(other@),
    {
        let rest = self.difference(other);
        let both = self.difference(&rest);
        assert(both@ =~= self@.intersect(other@));
        both
    }

    /// The cells that either set holds.
    pub fn union(&self, other: &VoxelSet) -> (r: VoxelSet)
        ensures
            r@ == self@.union(other@),
    {
        let mut out = VoxelSet::of(self.cells.as_slice());
        assert(other.cells@.take(0).to_set() =~= Set::<VoxelCoord>::empty());
        assert(out@ =~= self@.union(other.cells@.take(0).to_set()));
        for i in 0..other.cells.len()
            invariant
                out@ == self@.union(other.cells@.take(i as int).to_set()),
        {
            let cell = other.cells[i];
            proof {
                lemma_push_to_set(other.cells@.take(i as int), cell);
                assert(other.cells@.take(i + 1) =~= other.cells@.take(i as int).push(cell));
            }
            out.insert(cell);
            assert(out@ =~= self@.union(other.cells@.take(i + 1).to_set()));
        }
        assert(other.cells@.take(other.cells@.len() as int) =~= other.cells@);
        out
    }

    /// The set reflected in the plane at `centre` along `z`.
    pub fn mirrored(&self, centre: i32) -> (r: VoxelSet)
        requires
            forall|cell: VoxelCoord| #[trigger]
                self@.contains(cell) ==> i32::MIN <= 2 * centre - cell.z <= i32::MAX,
        ensures
            forall|cell: VoxelCoord| #[trigger]
                r@.contains(cell) <==> exists|source: VoxelCoord| #[trigger]
                    self@.contains(source) && mirror(source, centre as int) == cell,
    {
        let mut out = VoxelSet::new();
        for i in 0..self.cells.len()
            invariant
                forall|cell: VoxelCoord| #[trigger]
                    self@.contains(cell) ==> i32::MIN <= 2 * centre - cell.z <= i32::MAX,
                forall|cell: VoxelCoord| #[trigger]
                    out@.contains(cell) ==> exists|source: VoxelCoord| #[trigger]
                        self@.contains(source) && mirror(source, centre as int) == cell,
                forall|j: int|
                    0 <= j < i ==> out@.contains(#[trigger] mirror(self.cells@[j], centre as int)),
        {
            let cell = self.cells[i];
            assert(self@.contains(cell));
            let z: i64 = 2 * (centre as i64) - cell.z as i64;
            out.insert(VoxelCoord { x: cell.x, y: cell.y, z: z as i32 });
        }
        proof {
            assert forall|cell: VoxelCoord| #[trigger] out@.contains(cell) <==> exists|source: VoxelCoord|
                #[trigger] self@.contains(source) && mirror(source, centre as int) == cell by {
                if exists|source: VoxelCoord| #[trigger]
                    self@.contains(source) && mirror(source, centre as int) == cell {
                    let source = choose|source: VoxelCoord| #[trigger]
                        self@.contains(source) && mirror(source, centre as int) == cell;
                    let j = choose|j: int| 0 <= j < self.cells@.len() && self.cells@[j] == source;
                    assert(out@.contains(mirror(self.cells@[j], centre as int)));
                }
            }
        }
        out
    }

    fn is_exposed(&self, cell: VoxelCoord) -> (r: bool)
        requires
            interior(cell),
        ensures
            r == exposed(self@, cell),
    {
        let right = VoxelCoord { x: cell.x + 1, y: cell.y, z: cell.z };
        let left = VoxelCoord { x: cell.x - 1, y: cell.y, z: cell.z };
        let above = VoxelCoord { x: cell.x, y: cell.y + 1, z: cell.z };
        let below = VoxelCoord { x: cell.x, y: cell.y - 1, z: cell.z };
        let front = VoxelCoord { x: cell.x, y: cell.y, z: cell.z + 1 };
        let back = VoxelCoord { x: cell.x, y: cell.y, z: cell.z - 1 };
        let r = !self.contains(right) || !self.contains(left) || !self.contains(above)
            || !self.contains(below) || !self.contains(front) || !self.contains(back);
        proof {
            assert(adjacent(cell, right) && adjacent(cell, left) && adjacent(cell, above) && adjacent(
                cell,
                below,
            ) && adjacent(cell, front) && adjacent(cell, back));
            assert forall|other: VoxelCoord| #[trigger] adjacent(cell, other) implies other == right || other
                == left || other == above || other == below || other == front || other == back by {}
        }
        r
    }

    /// The cells with a neighbour outside of the set.
    pub fn boundary(&self) -> (r: VoxelSet)
        requires
            forall|cell: VoxelCoord| #[trigger] self@.contains(cell) ==> interior(cell),
        ensures
            r@ == self@.filter(|cell: VoxelCoord| exposed(self@, cell)),
    {
        let mut out = VoxelSet::new();
        for i in 0..self.cells.len()
            invariant
                forall|cell: VoxelCoord| #[trigger] self@.contains(cell) ==> interior(cell),
                forall|cell: VoxelCoord| #[trigger]
                    out@.contains(cell) ==> self@.contains(cell) && exposed(self@, cell),
                forall|j: int|
                    0 <= j < i && exposed(self@, self.cells@[j]) ==> out@.contains(
                        #[trigger] self.cells@[j],
                    ),
        {
            let cell = self.cells[i];
            assert(self@.contains(cell));
            if self.is_exposed(cell) {
                out.insert(cell);
            }
        }
        assert forall|cell: VoxelCoord| out@.contains(cell) <==> self@.filter(
            |c: VoxelCoord| exposed(self@, c),
        ).contains(cell) by {
            if self@.contains(cell) && exposed(self@, cell) {
                let j = choose|j: int| 0 <= j < self.cells@.len() && self.cells@[j] == cell;
                assert(out@.contains(self.cells@[j]));
            }
        }
        assert(out@ =~= self@.filter(|cell: VoxelCoord| exposed(self@, cell)));
        out
    }
}

/// Whether a cell lies in the box between two corners.
pub open spec fn within(cell: VoxelCoord, low: VoxelCoord, high: VoxelCoord) -> bool {
    &&& low.x <= cell.x <= high.x
    &&& low.y <= cell.y <= high.y
    &&& low.z <= cell.z <= high.z
}

/// The cells of the box between two corners, in order.
pub fn cells_between(low: VoxelCoord, high: VoxelCoord) -> (r: Vec<VoxelCoord>)
    ensures
        in_order(r@),
        forall|cell: VoxelCoord| #[trigger] r@.contains(cell) <==> within(cell, low, high),
{
    let mut out: Vec<VoxelCoord> = Vec::new();
    if low.x > high.x || low.y > high.y || low.z > high.z {
        return out;
    }
    let mut next = low;
    let mut more = true;
    while more
        invariant
            low.x <= high.x,
            low.y <= high.y,
            low.z <= high.z,
            within(next, low, high),
            in_order(out@),
            more ==> forall|i: int| 0 <= i < out@.len() ==> place(#[trigger] out@[i]) < place(next),
            forall|cell: VoxelCoord| #[trigger]
                out@.contains(cell) <==> within(cell, low, high) && (more ==> place(cell) < place(next)),
        decreases
                if more {
                    1int
                } else {
                    0
                },
            high.x - next.x,
            high.y - next.y,
            high.z - next.z,
    {
        let ghost before = out@;
        let ghost pushed = next;
        out.push(next);
        assert(out@ == before.push(pushed));
        assert forall|cell: VoxelCoord| #[trigger] out@.contains(cell) <==> before.contains(cell) || cell == pushed by {
            lemma_push_adds(before, pushed, cell);
        }
        if next.z < high.z {
            next = VoxelCoord { x: next.x, y: next.y, z: next.z + 1 };
        } else if next.y < high.y {
            next = VoxelCoord { x: next.x, y: next.y + 1, z: low.z };
        } else if next.x < high.x {
            next = VoxelCoord { x: next.x + 1, y: low.y, z: low.z };
        } else {
            more = false;
        }
        assert forall|cell: VoxelCoord| #[trigger] out@.contains(cell) <==> within(cell, low, high) && (
        more ==> place(cell) < place(next)) by {
            law_places_tell_cells_apart(cell, pushed);
            law_places_tell_cells_apart(pushed, cell);
            law_places_tell_cells_apart(cell, next);
        }
    }
    out
}

proof fn lemma_push_adds(cells: Seq<VoxelCoord>, last: VoxelCoord, cell: VoxelCoord)
    ensures
        cells.push(last).contains(cell) <==> cells.contains(cell) || cell == last,
{
    let all = cells.push(last);
    if cells.contains(cell) {
        let i = choose|i: int| 0 <= i < cells.len() && cells[i] == cell;
        assert(all[i] == cell);
    }
    if cell == last {
        assert(all[cells.len() as int] == cell);
    }
}

/// The cells of a list that are marked to stay.
pub open spec fn marked(cells: Seq<VoxelCoord>, marks: Seq<bool>) -> Seq<VoxelCoord>
    decreases cells.len(),
{
    if cells.len() == 0 {
        Seq::empty()
    } else {
        let before = marked(cells.drop_last(), marks);
        if marks[cells.len() - 1] {
            before.push(cells.last())
        } else {
            before
        }
    }
}

/// The cells of a list that are marked to stay, in the order of the list.
pub fn keep_marked(cells: &Vec<VoxelCoord>, marks: &Vec<bool>) -> (r: Vec<VoxelCoord>)
    requires
        marks@.len() == cells@.len(),
    ensures
        r@ == marked(cells@, marks@),
{
    let mut out: Vec<VoxelCoord> = Vec::new();
    for i in 0..cells.len()
        invariant
            marks@.len() == cells@.len(),
            out@ == marked(cells@.take(i as int), marks@),
    {
        assert(cells@.take(i + 1).drop_last() =~= cells@.take(i as int));
        if marks[i] {
            out.push(cells[i]);
        }
    }
    assert(cells@.take(cells@.len() as int) =~= cells@);
    out
}

/// Marked cells keep their order, and a cell is among them exactly if it stands
/// at a marked place of the list.
pub proof fn law_marked_cells_keep_their_order(cells: Seq<VoxelCoord>, marks: Seq<bool>)
    requires
        marks.len() >= cells.len(),
        in_order(cells),
    ensures
        in_order(marked(cells, marks)),
        forall|cell: VoxelCoord| #[trigger]
            marked(cells, marks).contains(cell) <==> exists|i: int|
                0 <= i < cells.len() && #[trigger] cells[i] == cell && marks[i],
    decreases cells.len(),
{
    if cells.len() > 0 {
        let before = cells.drop_last();
        law_marked_cells_keep_their_order(before, marks);
        let kept = marked(before, marks);
        let last = cells.len() - 1;
        assert forall|cell: VoxelCoord| #[trigger] kept.contains(cell) implies place(cell) < place(
            cells[last],
        ) by {
            let i = choose|i: int| 0 <= i < before.len() && #[trigger] before[i] == cell && marks[i];
            assert(cells[i] == cell);
        }
        assert forall|cell: VoxelCoord| #[trigger] marked(cells, marks).contains(cell) <==> exists|i: int|
            0 <= i < cells.len() && #[trigger] cells[i] == cell && marks[i] by {
            lemma_push_adds(kept, cells[last], cell);
            if kept.contains(cell) {
                let i = choose|i: int| 0 <= i < before.len() && #[trigger] before[i] == cell && marks[i];
                assert(cells[i] == cell);
            }
            if exists|i: int| 0 <= i < cells.len() && #[trigger] cells[i] == cell && marks[i] {
                let i = choose|i: int| 0 <= i < cells.len() && #[trigger] cells[i] == cell && marks[i];
                if i < last {
                    assert(before[i] == cell);
                }
            }
        }
        assert forall|i: int, j: int| 0 <= i < j < marked(cells, marks).len() implies place(
            #[trigger] marked(cells, marks)[i],
        ) < place(#[trigger] marked(cells, marks)[j]) by {
            if j == kept.len() {
                assert(kept.contains(kept[i]));
            }
        }
    } else {
        assert(marked(cells, marks) =~= Seq::<VoxelCoord>::empty());
    }
}

/// The cells of a list that a set holds too, in the order of the list.
pub open spec fn common(cells: Seq<VoxelCoord>, other: Set<VoxelCoord>) -> Seq<VoxelCoord> {
    marked(cells, Seq::new(cells.len(), |i: int| other.contains(cells[i])))
}

/// The cells of a list that another list holds too.
pub fn keep_common(cells: &Vec<VoxelCoord>, other: &[VoxelCoord]) -> (r: Vec<VoxelCoord>)
    ensures
        r@ == common(cells@, other@.to_set()),
{
    let held = VoxelSet::of(other);
    let mut marks: Vec<bool> = Vec::new();
    for i in 0..cells.len()
        invariant
            held@ == other@.to_set(),
            marks@ == Seq::new(i as nat, |j: int| other@.to_set().contains(cells@[j])),
    {
        marks.push(held.contains(cells[i]));
    }
    keep_marked(cells, &marks)
}

/// What two lists have in common keeps the order of the first, without any cell
/// twice, and is part of both; it is the whole first list where the other holds all
/// of it.
pub proof fn law_common_cells_are_in_both(cells: Seq<VoxelCoord>, other: Set<VoxelCoord>)
    requires
        in_order(cells),
    ensures
        in_order(common(cells, other)),
        common(cells, other).no_duplicates(),
        forall|cell: VoxelCoord| #[trigger]
            common(cells, other).contains(cell) <==> cells.contains(cell) && other.contains(cell),
        (forall|i: int| 0 <= i < cells.len() ==> other.contains(#[trigger] cells[i])) ==> common(
            cells,
            other,
        ) == cells,
{
    let marks = Seq::new(cells.len(), |i: int| other.contains(cells[i]));
    law_marked_cells_keep_their_order(cells, marks);
    let kept = common(cells, other);
    assert forall|i: int, j: int| 0 <= i < kept.len() && 0 <= j < kept.len() && i != j implies kept[i]
        != kept[j] by {
        if i < j {
            assert(place(kept[i]) < place(kept[j]));
        } else {
            assert(place(kept[j]) < place(kept[i]));
        }
    }
    assert forall|cell: VoxelCoord| #[trigger] kept.contains(cell) <==> cells.contains(cell)
        && other.contains(cell) by {
        if cells.contains(cell) && other.contains(cell) {
            let i = choose|i: int| 0 <= i < cells.len() && cells[i] == cell;
            assert(cells[i] == cell && marks[i]);
        }
    }
    if forall|i: int| 0 <= i < cells.len() ==> other.contains(#[trigger] cells[i]) {
        lemma_all_marked(cells, marks);
    }
}

proof fn lemma_all_marked(cells: Seq<VoxelCoord>, marks: Seq<bool>)
    requires
        marks.len() >= cells.len(),
        forall|i: int| 0 <= i < cells.len() ==> #[trigger] marks[i],
    ensures
        marked(cells, marks) == cells,
    decreases cells.len(),
{
    if cells.len() > 0 {
        lemma_all_marked(cells.drop_last(), marks);
        assert(marks[cells.len() - 1]);
        assert(cells.drop_last().push(cells.last()) =~= cells);
    } else {
        assert(marked(cells, marks) =~= cells);
    }
}


/// A cell lies open exactly when one of the six cells that share a face with it is missing.
pub proof fn law_a_cell_has_six_neighbours(cells: Set<VoxelCoord>, cell: VoxelCoord)
    requires
        interior(cell),
    ensures
        exposed(cells, cell) <==> {
            ||| !cells.contains(VoxelCoord { x: (cell.x + 1) as i32, ..cell })
            ||| !cells.contains(VoxelCoord { x: (cell.x - 1) as i32, ..cell })
            ||| !cells.contains(VoxelCoord { y: (cell.y + 1) as i32, ..cell })
            ||| !cells.contains(VoxelCoord { y: (cell.y - 1) as i32, ..cell })
            ||| !cells.contains(VoxelCoord { z: (cell.z + 1) as i32, ..cell })
            ||| !cells.contains(VoxelCoord { z: (cell.z - 1) as i32, ..cell })
        },
{
    let right = VoxelCoord { x: (cell.x + 1) as i32, ..cell };
    let left = VoxelCoord { x: (cell.x - 1) as i32, ..cell };
    let above = VoxelCoord { y: (cell.y + 1) as i32, ..cell };
    let beneath = VoxelCoord { y: (cell.y - 1) as i32, ..cell };
    let behind = VoxelCoord { z: (cell.z + 1) as i32, ..cell };
    let ahead = VoxelCoord { z: (cell.z - 1) as i32, ..cell };
    assert(adjacent(cell, right) && adjacent(cell, left) && adjacent(cell, above));
    assert(adjacent(cell, beneath) && adjacent(cell, behind) && adjacent(cell, ahead));
    assert forall|other: VoxelCoord| #[trigger] adjacent(cell, other) implies other == right || other
        == left || other == above || other == beneath || other == behind || other == ahead by {
    }
}

/// A mirrored cell keeps its height and depth and lies as far beyond the middle as the cell lies
/// before it.
pub proof fn law_a_mirrored_cell_lies_across_the_middle(cell: VoxelCoord, centre: int)
    requires
        i32::MIN <= 2 * centre - cell.z <= i32::MAX,
    ensures
        mirror(cell, centre).x == cell.x,
        mirror(cell, centre).y == cell.y,
        mirror(cell, centre).z - centre == centre - cell.z,
{
}

}
