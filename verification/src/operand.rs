//! References as the evaluator sees them: one or more rectangles, each with a
//! home sheet.
//!
//! A plain `A1:B2` is one area. A union is several. A three-dimensional
//! reference such as `Sheet1:Sheet3!A1` is the same rectangle on several
//! sheets, which is also several areas. Keeping the areas apart is what lets
//! `SUM((A1:A2,C1:C2))` add four cells rather than the six a bounding box
//! would sweep up.
//!
//! An array is the other rectangle an expression can produce: values with no
//! home on a sheet, such as `{1,2;3,4}`.

use vstd::prelude::*;

use crate::ast::Bound;
use crate::coord::{A1Ref, CellAddr, CellRef, MAX_COL, MAX_ROW, RangeAddr, RangeRef, SheetId};

verus! {

/// One or more rectangles on one or more sheets. Never empty.
#[derive(PartialEq, Eq, Debug)]
pub struct Reference {
    areas: Vec<RangeAddr>,
}

impl Clone for Reference {
    fn clone(&self) -> (r: Self)
        ensures
            r.area_list() == self.area_list(),
    {
        proof {
            use_type_invariant(self);
        }
        let mut areas: Vec<RangeAddr> = Vec::new();
        let mut i: usize = 0;
        while i < self.areas.len()
            invariant
                i <= self.areas@.len(),
                areas@ == self.areas@.subrange(0, i as int),
            decreases self.areas.len() - i,
        {
            areas.push(self.areas[i]);
            i = i + 1;
            assert(areas@ =~= self.areas@.subrange(0, i as int));
        }
        assert(areas@ =~= self.areas@);
        Reference { areas }
    }
}

/// The areas two references share, left areas outermost and right areas
/// innermost, with the pairs that share nothing left out.
pub open spec fn shared_areas(left: Seq<RangeAddr>, right: Seq<RangeAddr>) -> Seq<RangeAddr>
    decreases left.len(),
{
    if left.len() == 0 {
        Seq::empty()
    } else {
        shared_areas(left.drop_last(), right) + overlaps_with(left.last(), right)
    }
}

/// The overlaps of one area with each of some others, in order.
pub open spec fn overlaps_with(area: RangeAddr, others: Seq<RangeAddr>) -> Seq<RangeAddr>
    decreases others.len(),
{
    if others.len() == 0 {
        Seq::empty()
    } else {
        let other = others.last();
        overlaps_with(area, others.drop_last()) + if area.sheet == other.sheet
            && area.range.overlaps(other.range) {
            seq![RangeAddr { sheet: area.sheet, range: overlap(area.range, other.range) }]
        } else {
            Seq::empty()
        }
    }
}

/// The rectangle two overlapping ranges share.
pub open spec fn overlap(a: RangeRef, b: RangeRef) -> RangeRef {
    RangeRef {
        start: CellRef {
            row: if a.start.row >= b.start.row { a.start.row } else { b.start.row },
            col: if a.start.col >= b.start.col { a.start.col } else { b.start.col },
        },
        end: CellRef {
            row: if a.end.row <= b.end.row { a.end.row } else { b.end.row },
            col: if a.end.col <= b.end.col { a.end.col } else { b.end.col },
        },
    }
}

/// An area's rows and columns run the right way and each span fits a `u32`
/// count.
pub open spec fn measurable(a: RangeAddr) -> bool {
    &&& a.range.start.row <= a.range.end.row
    &&& a.range.end.row - a.range.start.row < u32::MAX
    &&& a.range.start.col <= a.range.end.col
    &&& a.range.end.col - a.range.start.col < u32::MAX
}

/// The cells of every area added up, overlaps counted twice.
pub open spec fn total_area(areas: Seq<RangeAddr>) -> int
    decreases areas.len(),
{
    if areas.len() == 0 {
        0
    } else {
        total_area(areas.drop_last()) + areas.last().range.cell_count()
    }
}

impl Reference {
    /// The areas, in order.
    pub closed spec fn area_list(&self) -> Seq<RangeAddr> {
        self.areas@
    }

    #[verifier::type_invariant]
    spec fn nonempty(self) -> bool {
        self.areas@.len() > 0
    }

    pub fn new(areas: Vec<RangeAddr>) -> (r: Option<Self>)
        ensures
            areas@.len() == 0 ==> r is None,
            areas@.len() > 0 ==> (r matches Some(reference) && reference.area_list() == areas@),
    {
        if areas.len() > 0 {
            Some(Reference { areas })
        } else {
            None
        }
    }

    pub fn single(sheet: SheetId, range: RangeRef) -> (r: Self)
        ensures
            r.area_list() == seq![RangeAddr { sheet, range }],
    {
        let mut areas: Vec<RangeAddr> = Vec::new();
        areas.push(RangeAddr::new(sheet, range));
        assert(areas@ =~= seq![RangeAddr { sheet, range }]);
        Reference { areas }
    }

    pub fn cell(sheet: SheetId, cell: CellRef) -> (r: Self)
        ensures
            r.area_list() == seq![RangeAddr { sheet, range: RangeRef { start: cell, end: cell } }],
    {
        Self::single(sheet, RangeRef::single(cell))
    }

    /// The areas, in order. There is always at least one.
    pub fn areas(&self) -> (a: &[RangeAddr])
        ensures
            a@ == self.area_list(),
            a@.len() > 0,
    {
        proof {
            use_type_invariant(self);
        }
        self.areas.as_slice()
    }

    /// The one area, when there is exactly one.
    pub fn as_single_area(&self) -> (r: Option<RangeAddr>)
        ensures
            r == (if self.area_list().len() == 1 {
                Some(self.area_list()[0])
            } else {
                None
            }),
    {
        if self.areas.len() == 1 {
            Some(self.areas[0])
        } else {
            None
        }
    }

    /// The one cell, when this reference is exactly one cell.
    pub fn as_single_cell(&self) -> (r: Option<CellAddr>)
        ensures
            r == (if self.area_list().len() == 1 && self.area_list()[0].range.start
                == self.area_list()[0].range.end {
                Some(CellAddr { sheet: self.area_list()[0].sheet, cell: self.area_list()[0].range.start })
            } else {
                None
            }),
    {
        match self.as_single_area() {
            Some(area) => {
                if area.range.start == area.range.end {
                    Some(CellAddr::new(area.sheet, area.range.start))
                } else {
                    None
                }
            },
            None => None,
        }
    }

    /// Join two references into a union.
    pub fn union(self, other: Self) -> (r: Self)
        ensures
            r.area_list() == self.area_list() + other.area_list(),
    {
        proof {
            use_type_invariant(&self);
        }
        let mut areas = self.areas;
        let mut more = other.areas;
        areas.append(&mut more);
        Reference { areas }
    }

    /// The cells the two references share.
    ///
    /// Returns `None` when they share none, which is the `#NULL!` case.
    pub fn intersect(&self, other: &Self) -> (r: Option<Self>)
        ensures
            shared_areas(self.area_list(), other.area_list()).len() == 0 ==> r is None,
            shared_areas(self.area_list(), other.area_list()).len() > 0 ==> (r matches Some(
                reference,
            ) && reference.area_list() == shared_areas(self.area_list(), other.area_list())),
    {
        let mut shared: Vec<RangeAddr> = Vec::new();
        let mut i: usize = 0;
        while i < self.areas.len()
            invariant
                i <= self.areas@.len(),
                shared@ == shared_areas(self.areas@.subrange(0, i as int), other.areas@),
            decreases self.areas.len() - i,
        {
            let left = self.areas[i];
            let ghost before = shared@;
            let mut j: usize = 0;
            while j < other.areas.len()
                invariant
                    j <= other.areas@.len(),
                    shared@ == before + overlaps_with(left, other.areas@.subrange(0, j as int)),
                decreases other.areas.len() - j,
            {
                let right = other.areas[j];
                if left.sheet == right.sheet {
                    match left.range.intersection(&right.range) {
                        Some(common) => {
                            shared.push(RangeAddr::new(left.sheet, common));
                        },
                        None => {},
                    }
                }
                assert(other.areas@.subrange(0, j + 1).drop_last() =~= other.areas@.subrange(0, j as int));
                assert(shared@ =~= before + overlaps_with(left, other.areas@.subrange(0, j + 1)));
                j = j + 1;
            }
            assert(other.areas@.subrange(0, other.areas@.len() as int) =~= other.areas@);
            assert(self.areas@.subrange(0, i + 1).drop_last() =~= self.areas@.subrange(0, i as int));
            i = i + 1;
        }
        assert(self.areas@.subrange(0, self.areas@.len() as int) =~= self.areas@);
        Self::new(shared)
    }

    /// Total cells addressed, counting overlaps in a union twice, the way the
    /// language does.
    pub fn area(&self) -> (a: u64)
        requires
            forall|k: int| 0 <= k < self.area_list().len() ==> measurable(#[trigger] self.area_list()[k]),
            total_area(self.area_list()) <= u64::MAX,
        ensures
            a == total_area(self.area_list()),
    {
        let mut sum: u64 = 0;
        let mut i: usize = 0;
        while i < self.areas.len()
            invariant
                i <= self.areas@.len(),
                forall|k: int| 0 <= k < self.areas@.len() ==> measurable(#[trigger] self.areas@[k]),
                total_area(self.areas@) <= u64::MAX,
                sum == total_area(self.areas@.subrange(0, i as int)),
            decreases self.areas.len() - i,
        {
            assert(self.areas@.subrange(0, i + 1).drop_last() =~= self.areas@.subrange(0, i as int));
            proof {
                lemma_total_area_prefix(self.areas@, i + 1);
            }
            assert(measurable(self.areas@[i as int]));
            let piece = self.areas[i].range.area();
            sum = sum + piece;
            i = i + 1;
        }
        assert(self.areas@.subrange(0, self.areas@.len() as int) =~= self.areas@);
        sum
    }
}

/// Areas never count negative, so a prefix of a list counts no more than the
/// whole list.
proof fn lemma_total_area_prefix(areas: Seq<RangeAddr>, n: int)
    requires
        0 <= n <= areas.len(),
        forall|k: int| 0 <= k < areas.len() ==> measurable(#[trigger] areas[k]),
    ensures
        total_area(areas.subrange(0, n)) <= total_area(areas),
    decreases areas.len(),
{
    if n < areas.len() {
        let init = areas.drop_last();
        assert forall|k: int| 0 <= k < init.len() implies measurable(#[trigger] init[k]) by {
            assert(init[k] == areas[k]);
        }
        assert(init.subrange(0, n) =~= areas.subrange(0, n));
        lemma_total_area_prefix(init, n);
        let last = areas.last();
        assert(measurable(areas[areas.len() - 1]));
        assert(last.range.cell_count() >= 0) by (nonlinear_arith)
            requires
                last.range.start.row <= last.range.end.row,
                last.range.start.col <= last.range.end.col,
                last.range.cell_count() == (last.range.end.row - last.range.start.row + 1) * (
                last.range.end.col - last.range.start.col + 1),
        ;
    } else {
        assert(areas.subrange(0, n) =~= areas);
    }
}

/// Counting the cells of two lists of areas laid end to end gives the sum of
/// their counts.
proof fn lemma_total_area_concat(left: Seq<RangeAddr>, right: Seq<RangeAddr>)
    ensures
        total_area(left + right) == total_area(left) + total_area(right),
    decreases right.len(),
{
    if right.len() == 0 {
        assert(left + right =~= left);
    } else {
        assert((left + right).drop_last() =~= left + right.drop_last());
        lemma_total_area_concat(left, right.drop_last());
    }
}

/// The area of a union is the sum of the areas of its two parts, cells they
/// share counted twice.
pub proof fn lemma_union_area_adds_up(a: Reference, b: Reference, joined: Reference)
    requires
        joined.area_list() == a.area_list() + b.area_list(),
    ensures
        total_area(joined.area_list()) == total_area(a.area_list()) + total_area(b.area_list()),
{
    lemma_total_area_concat(a.area_list(), b.area_list());
}

/// Every cell both references address is in their shared areas, and every
/// cell of a shared area is addressed by both: the intersection is exactly
/// the overlap.
pub proof fn lemma_shared_areas_are_the_overlap(
    left: Seq<RangeAddr>,
    right: Seq<RangeAddr>,
    addr: CellAddr,
)
    ensures
        (exists|k: int| 0 <= k < shared_areas(left, right).len() && #[trigger] shared_areas(left, right)[k].holds(addr))
            <==> (exists|i: int, j: int|
            0 <= i < left.len() && 0 <= j < right.len() && #[trigger] left[i].holds(addr)
                && #[trigger] right[j].holds(addr)),
    decreases left.len(),
{
    if left.len() > 0 {
        let init = left.drop_last();
        let area = left.last();
        lemma_shared_areas_are_the_overlap(init, right, addr);
        lemma_overlaps_with(area, right, addr);
        let s = shared_areas(left, right);
        let s0 = shared_areas(init, right);
        let o = overlaps_with(area, right);
        assert(s =~= s0 + o);
        if exists|k: int| 0 <= k < s.len() && #[trigger] s[k].holds(addr) {
            let k = choose|k: int| 0 <= k < s.len() && #[trigger] s[k].holds(addr);
            if k < s0.len() {
                assert(s0[k] == s[k]);
                let (i, j) = choose|i: int, j: int|
                    0 <= i < init.len() && 0 <= j < right.len() && #[trigger] init[i].holds(addr)
                        && #[trigger] right[j].holds(addr);
                assert(left[i] == init[i]);
            } else {
                assert(o[k - s0.len()] == s[k]);
                let j = choose|j: int| 0 <= j < right.len() && area.holds(addr) && #[trigger] right[j].holds(addr);
                assert(left[left.len() - 1] == area);
            }
        }
        if exists|i: int, j: int|
            0 <= i < left.len() && 0 <= j < right.len() && #[trigger] left[i].holds(addr)
                && #[trigger] right[j].holds(addr) {
            let (i, j) = choose|i: int, j: int|
                0 <= i < left.len() && 0 <= j < right.len() && #[trigger] left[i].holds(addr)
                    && #[trigger] right[j].holds(addr);
            if i < init.len() {
                assert(init[i] == left[i]);
                let k = choose|k: int| 0 <= k < s0.len() && #[trigger] s0[k].holds(addr);
                assert(s[k] == s0[k]);
            } else {
                assert(left[i] == area);
                let k = choose|k: int| 0 <= k < o.len() && #[trigger] o[k].holds(addr);
                assert(s[s0.len() + k] == o[k]);
            }
        }
    }
}

proof fn lemma_overlaps_with(area: RangeAddr, others: Seq<RangeAddr>, addr: CellAddr)
    ensures
        (exists|k: int| 0 <= k < overlaps_with(area, others).len() && #[trigger] overlaps_with(area, others)[k].holds(addr))
            <==> (area.holds(addr) && exists|j: int| 0 <= j < others.len() && #[trigger] others[j].holds(addr)),
    decreases others.len(),
{
    if others.len() > 0 {
        let init = others.drop_last();
        let other = others.last();
        lemma_overlaps_with(area, init, addr);
        let o = overlaps_with(area, others);
        let o0 = overlaps_with(area, init);
        let tail = if area.sheet == other.sheet && area.range.overlaps(other.range) {
            seq![RangeAddr { sheet: area.sheet, range: overlap(area.range, other.range) }]
        } else {
            Seq::<RangeAddr>::empty()
        };
        assert(o =~= o0 + tail);
        if exists|k: int| 0 <= k < o.len() && #[trigger] o[k].holds(addr) {
            let k = choose|k: int| 0 <= k < o.len() && #[trigger] o[k].holds(addr);
            if k < o0.len() {
                assert(o0[k] == o[k]);
                let j = choose|j: int| 0 <= j < init.len() && #[trigger] init[j].holds(addr);
                assert(others[j] == init[j]);
            } else {
                assert(tail.len() == 1);
                assert(o[k] == tail[0]);
                assert(other.holds(addr));
                assert(others[others.len() - 1] == other);
            }
        }
        if area.holds(addr) && exists|j: int| 0 <= j < others.len() && #[trigger] others[j].holds(addr) {
            let j = choose|j: int| 0 <= j < others.len() && #[trigger] others[j].holds(addr);
            if j < init.len() {
                assert(init[j] == others[j]);
                let k = choose|k: int| 0 <= k < o0.len() && #[trigger] o0[k].holds(addr);
                assert(o[k] == o0[k]);
            } else {
                assert(others[j] == other);
                assert(area.sheet == other.sheet && area.range.overlaps(other.range));
                assert(tail.len() == 1);
                assert(tail[0].holds(addr));
                assert(o[o0.len() as int] == tail[0]);
            }
        }
    }
}

/// Build a reference from an A1 pair, for callers outside the parser.
pub fn range_of(sheet: SheetId, start: A1Ref, end: A1Ref) -> (r: Reference)
    ensures
        r.area_list().len() == 1,
        r.area_list()[0].sheet == sheet,
        r.area_list()[0].range.start.row == vstd::math::min(start.cell.row as int, end.cell.row as int),
        r.area_list()[0].range.start.col == vstd::math::min(start.cell.col as int, end.cell.col as int),
        r.area_list()[0].range.end.row == vstd::math::max(start.cell.row as int, end.cell.row as int),
        r.area_list()[0].range.end.col == vstd::math::max(start.cell.col as int, end.cell.col as int),
{
    Reference::single(sheet, RangeRef::new(start.cell, end.cell))
}

/// Clamp a bound to the grid, for callers constructing whole-row or
/// whole-column references by hand.
pub fn clamp_bound(bound: Bound, is_row: bool) -> (r: u32)
    ensures
        r == vstd::math::min(bound.index as int, if is_row { MAX_ROW as int } else { MAX_COL as int }),
{
    let limit = if is_row { MAX_ROW } else { MAX_COL };
    if bound.index > limit {
        limit
    } else {
        bound.index
    }
}

// ---------------------------------------------------------------------------
// Arrays

/// A rectangle of values with no position on a sheet, stored row by row.
/// Always at least one cell: an empty array is not a thing the language can
/// express.
pub struct Array<T> {
    rows: u32,
    cols: u32,
    cells: Vec<T>,
}

impl<T> Array<T> {
    /// The shape is at least one by one and the cells fill it exactly.
    #[verifier::type_invariant]
    spec fn shaped(self) -> bool {
        &&& self.rows >= 1
        &&& self.cols >= 1
        &&& self.cells@.len() == self.rows * self.cols
    }

    pub closed spec fn height(&self) -> nat {
        self.rows as nat
    }

    pub closed spec fn width(&self) -> nat {
        self.cols as nat
    }

    /// The cells, row by row.
    pub closed spec fn contents(&self) -> Seq<T> {
        self.cells@
    }

    /// The cell at a position inside the rectangle.
    pub open spec fn at(&self, row: int, col: int) -> T {
        self.contents()[row * self.width() + col]
    }

    /// Build from cells given row by row. `None` when either dimension is
    /// zero or the number of cells does not fill the shape.
    pub fn new(rows: u32, cols: u32, cells: Vec<T>) -> (r: Option<Self>)
        ensures
            (rows >= 1 && cols >= 1 && cells@.len() == rows * cols) <==> r is Some,
            r matches Some(a) ==> a.height() == rows && a.width() == cols && a.contents() == cells@,
    {
        if rows == 0 || cols == 0 {
            return None;
        }
        assert((rows as u64) * (cols as u64) <= u64::MAX) by (nonlinear_arith)
            requires
                rows <= u32::MAX,
                cols <= u32::MAX,
        ;
        let size = rows as u64 * cols as u64;
        if cells.len() as u64 != size {
            return None;
        }
        Some(Array { rows, cols, cells })
    }

    /// A one-by-one array, which is how a scalar enters array arithmetic.
    pub fn scalar(value: T) -> (r: Self)
        ensures
            r.height() == 1,
            r.width() == 1,
            r.contents() == seq![value],
    {
        let mut cells: Vec<T> = Vec::new();
        cells.push(value);
        assert(cells@ =~= seq![value]);
        Array { rows: 1, cols: 1, cells }
    }

    /// Build from rows that must all be as long as the first. `None` when
    /// there is no row, the rows are empty, or their lengths differ.
    pub fn from_rows(rows: Vec<Vec<T>>) -> (r: Option<Self>)
        requires
            rows@.len() <= u32::MAX,
            forall|i: int| 0 <= i < rows@.len() ==> (#[trigger] rows@[i])@.len() <= u32::MAX,
        ensures
            (rows@.len() >= 1 && rows@[0]@.len() >= 1 && forall|i: int|
                0 <= i < rows@.len() ==> (#[trigger] rows@[i])@.len() == rows@[0]@.len()) <==> r is Some,
            r matches Some(a) ==> a.height() == rows@.len() && a.width() == rows@[0]@.len() && a.contents()
                == rows@.map_values(|row: Vec<T>| row@).flatten(),
    {
        let height = rows.len();
        if height == 0 {
            return None;
        }
        let width = rows[0].len();
        let mut k: usize = 0;
        while k < height
            invariant
                height == rows@.len(),
                width == rows@[0]@.len(),
                k <= height,
                forall|i: int| 0 <= i < k ==> (#[trigger] rows@[i])@.len() == width,
            decreases height - k,
        {
            if rows[k].len() != width {
                return None;
            }
            k = k + 1;
        }
        let ghost shape = rows@.map_values(|row: Vec<T>| row@);
        let mut cells: Vec<T> = Vec::new();
        let mut done: usize = 0;
        for row in it: rows.into_iter()
            invariant
                it.seq() == rows@,
                done == it.index(),
                shape == rows@.map_values(|row: Vec<T>| row@),
                cells@ == shape.take(done as int).flatten(),
                cells@.len() == done * width,
                done <= height,
                height == rows@.len(),
                forall|i: int| 0 <= i < rows@.len() ==> (#[trigger] rows@[i])@.len() == width,
                width <= u32::MAX,
                height <= u32::MAX,
        {
            let mut row = row;
            let ghost taken = row@;
            assert(taken == rows@[done as int]@);
            cells.append(&mut row);
            proof {
                let next = shape.take(done + 1);
                assert(next =~= shape.take(done as int).push(taken));
                shape.take(done as int).lemma_flatten_push(taken);
                assert(cells@.len() == (done + 1) * width) by (nonlinear_arith)
                    requires
                        cells@.len() == done * width + width,
                ;
            }
            done = done + 1;
        }
        assert(shape.take(height as int) =~= shape);
        Self::new(height as u32, width as u32, cells)
    }

    /// A single column, the shape most lookups return.
    pub fn column(values: Vec<T>) -> (r: Option<Self>)
        requires
            values@.len() <= u32::MAX,
        ensures
            (values@.len() >= 1) <==> r is Some,
            r matches Some(a) ==> a.height() == values@.len() && a.width() == 1 && a.contents() == values@,
    {
        let height = values.len() as u32;
        Self::new(height, 1, values)
    }

    pub fn rows(&self) -> (n: u32)
        ensures
            n == self.height(),
    {
        self.rows
    }

    pub fn cols(&self) -> (n: u32)
        ensures
            n == self.width(),
    {
        self.cols
    }

    /// How many cells there are.
    pub fn len(&self) -> (n: usize)
        ensures
            n == self.contents().len(),
    {
        self.cells.len()
    }

    /// Never: an array always has a cell.
    pub fn is_empty(&self) -> (b: bool)
        ensures
            b == (self.contents().len() == 0),
            !b,
    {
        proof {
            use_type_invariant(self);
            assert(self.rows * self.cols >= 1) by (nonlinear_arith)
                requires
                    self.rows >= 1,
                    self.cols >= 1,
            ;
        }
        false
    }

    /// The cell at a position, or `None` outside the rectangle.
    pub fn get(&self, row: u32, col: u32) -> (r: Option<&T>)
        ensures
            (row < self.height() && col < self.width()) <==> r is Some,
            r matches Some(v) ==> *v == self.at(row as int, col as int),
    {
        proof {
            use_type_invariant(self);
        }
        if row >= self.rows || col >= self.cols {
            return None;
        }
        proof {
            assert(row * self.cols + col < self.rows * self.cols) by (nonlinear_arith)
                requires
                    row < self.rows,
                    col < self.cols,
            ;
            assert(row * self.cols <= row * self.cols + col);
            assert(0 <= row * self.cols) by (nonlinear_arith);
        }
        let len = self.cells.len();
        let r = row as usize;
        let w = self.cols as usize;
        let c = col as usize;
        assert(r * w + c < len);
        assert(r * w <= r * w + c);
        let index = r * w + c;
        Some(&self.cells[index])
    }

    /// The cell at a position, stretching a single row down and a single
    /// column across, the way broadcasting does. `None` in a corner the
    /// array does not cover, which the evaluator reads as `#N/A`.
    pub fn get_broadcast(&self, row: u32, col: u32) -> (r: Option<&T>)
        ensures
            ({
                let r_at = if self.height() == 1 { 0 } else { row as int };
                let c_at = if self.width() == 1 { 0 } else { col as int };
                &&& (r_at < self.height() && c_at < self.width()) <==> r is Some
                &&& r matches Some(v) ==> *v == self.at(r_at, c_at)
            }),
    {
        let r = if self.rows == 1 { 0 } else { row };
        let c = if self.cols == 1 { 0 } else { col };
        self.get(r, c)
    }

    /// The cells, row by row.
    pub fn values(&self) -> (v: &[T])
        ensures
            v@ == self.contents(),
    {
        self.cells.as_slice()
    }

    /// The single cell, when there is exactly one.
    pub fn as_scalar(&self) -> (r: Option<&T>)
        ensures
            (self.contents().len() == 1) <==> r is Some,
            r matches Some(v) ==> *v == self.contents()[0],
    {
        if self.cells.len() == 1 {
            Some(&self.cells[0])
        } else {
            None
        }
    }

    /// The shape two arrays broadcast to: the larger of each dimension.
    pub fn broadcast_shape(a: &Self, b: &Self) -> (r: (u32, u32))
        ensures
            r.0 == (if a.height() >= b.height() { a.height() } else { b.height() }),
            r.1 == (if a.width() >= b.width() { a.width() } else { b.width() }),
    {
        (if a.rows >= b.rows { a.rows } else { b.rows }, if a.cols >= b.cols { a.cols } else { b.cols })
    }
}

} // verus!
