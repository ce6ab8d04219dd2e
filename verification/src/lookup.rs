//! Positions within a stated range: the shape of a reference, and the part of
//! it that `INDEX` picks out.
//!
//! Every position counts from one, the way the formula language does, and is
//! measured from the stated range, not from the part of it holding data.

use vstd::prelude::*;

use crate::coord::{CellAddr, CellRef, RangeAddr, RangeRef};
use crate::operand::{Array, Reference};
use crate::value::CalcError;

verus! {

/// Rows a range spans.
pub open spec fn height_of(range: RangeRef) -> int {
    range.end.row - range.start.row + 1
}

/// Columns a range spans.
pub open spec fn width_of(range: RangeRef) -> int {
    range.end.col - range.start.col + 1
}

/// An area whose height and width can be counted in a `u32`.
pub open spec fn countable(range: RangeRef) -> bool {
    &&& range.normalised()
    &&& range.end.row - range.start.row < u32::MAX
    &&& range.end.col - range.start.col < u32::MAX
}

/// The row index `INDEX` uses: the first argument, except that with one
/// index over a single row it addresses along the row.
pub open spec fn index_row(range: RangeRef, first: int, second: Option<int>) -> int {
    match second {
        Some(_) => first,
        None => if height_of(range) == 1 { 1 } else { first },
    }
}

/// The column index `INDEX` uses: the second argument when given; with one
/// index, the first over a single row, column one over a single column, and
/// the whole row otherwise.
pub open spec fn index_column(range: RangeRef, first: int, second: Option<int>) -> int {
    match second {
        Some(c) => c,
        None => if height_of(range) == 1 {
            first
        } else if width_of(range) == 1 {
            1
        } else {
            0
        },
    }
}

/// A whole number as 32-bit arithmetic keeps it: its low 32 bits.
pub open spec fn wrap32(x: int) -> u32 {
    (x % 4294967296) as u32
}

/// What `INDEX` selects from one area at a row and column index: a negative
/// index is a `#VALUE!`, one past the area's size a `#REF!`; a zero index
/// takes the whole column, row or area. An index is read as a 32-bit
/// position, its higher bits dropped, and positions are reckoned in 32-bit
/// arithmetic.
pub open spec fn index_spec(area: RangeAddr, r: int, c: int) -> Result<RangeAddr, CalcError> {
    let s = area.range.start;
    let e = area.range.end;
    let tr = wrap32(r) as int;
    let tc = wrap32(c) as int;
    let row = wrap32(s.row + tr - 1);
    let col = wrap32(s.col + tc - 1);
    if r < 0 || c < 0 {
        Err(CalcError::Value)
    } else if tr > height_of(area.range) || tc > width_of(area.range) {
        Err(CalcError::Ref)
    } else if r == 0 && c == 0 {
        Ok(area)
    } else if r == 0 {
        Ok(
            RangeAddr {
                sheet: area.sheet,
                range: RangeRef { start: CellRef { row: s.row, col }, end: CellRef { row: e.row, col } },
            },
        )
    } else if c == 0 {
        Ok(
            RangeAddr {
                sheet: area.sheet,
                range: RangeRef { start: CellRef { row, col: s.col }, end: CellRef { row, col: e.col } },
            },
        )
    } else {
        let cell = CellRef { row, col };
        Ok(RangeAddr { sheet: area.sheet, range: RangeRef { start: cell, end: cell } })
    }
}

/// The low 32 bits of a whole number that is not negative.
fn low_bits(x: i64) -> (r: u32)
    requires
        x >= 0,
    ensures
        r == wrap32(x as int),
{
    let v: u64 = x as u64;
    (v % 4294967296) as u32
}

/// `base + n - 1` in 32-bit arithmetic.
fn step_from(base: u32, n: u32) -> (r: u32)
    ensures
        r == wrap32(base + n - 1),
{
    let v: u64 = base as u64 + n as u64 + 4294967295;
    assert(v as int % 4294967296 == (base + n - 1) % 4294967296) by (nonlinear_arith)
        requires
            v == base + n + 4294967295,
    ;
    (v % 4294967296) as u32
}

/// `ROWS` and `COLUMNS` of a reference: the height and width of its one
/// area; a union of several areas is a `#REF!`.
pub fn reference_shape(reference: &Reference) -> (r: Result<(u32, u32), CalcError>)
    requires
        reference.area_list().len() == 1 ==> countable(reference.area_list()[0].range),
    ensures
        reference.area_list().len() == 1 ==> r == Ok::<(u32, u32), CalcError>(
            (
                height_of(reference.area_list()[0].range) as u32,
                width_of(reference.area_list()[0].range) as u32,
            ),
        ),
        reference.area_list().len() != 1 ==> r == Err::<(u32, u32), CalcError>(CalcError::Ref),
{
    match reference.as_single_area() {
        Some(area) => Ok((area.range.height(), area.range.width())),
        None => Err(CalcError::Ref),
    }
}

/// `INDEX(reference, first, [second])` once its index arguments are whole
/// numbers: the cell, row, column or whole area picked out of the one area
/// of the reference. A union of several areas is a `#REF!`.
///
/// An index is read as a 32-bit position, as sheet positions are, so only
/// its low 32 bits count.
pub fn index_reference(reference: &Reference, first: i64, second: Option<i64>) -> (r: Result<
    Reference,
    CalcError,
>)
    requires
        reference.area_list().len() == 1 ==> countable(reference.area_list()[0].range),
    ensures
        reference.area_list().len() != 1 ==> r == Err::<Reference, CalcError>(CalcError::Ref),
        reference.area_list().len() == 1 ==> {
            let area = reference.area_list()[0];
            let second_int = match second {
                Some(c) => Some(c as int),
                None => None,
            };
            match index_spec(
                area,
                index_row(area.range, first as int, second_int),
                index_column(area.range, first as int, second_int),
            ) {
                Ok(picked) => (r matches Ok(out) && out.area_list() == seq![picked]),
                Err(e) => r == Err::<Reference, CalcError>(e),
            }
        },
{
    let area = match reference.as_single_area() {
        Some(area) => area,
        None => {
            return Err(CalcError::Ref);
        },
    };
    let height = area.range.height();
    let width = area.range.width();
    let (row_index, col_index): (i64, i64) = match second {
        Some(col) => (first, col),
        None => if height == 1 {
            (1, first)
        } else if width == 1 {
            (first, 1)
        } else {
            (first, 0)
        },
    };
    if row_index < 0 || col_index < 0 {
        return Err(CalcError::Value);
    }
    let tr = low_bits(row_index);
    let tc = low_bits(col_index);
    if tr > height || tc > width {
        return Err(CalcError::Ref);
    }
    let start = area.range.start;
    let end = area.range.end;
    let row = step_from(start.row, tr);
    let col = step_from(start.col, tc);
    let selected = if row_index == 0 && col_index == 0 {
        area.range
    } else if row_index == 0 {
        RangeRef { start: CellRef::new(start.row, col), end: CellRef::new(end.row, col) }
    } else if col_index == 0 {
        RangeRef { start: CellRef::new(row, start.col), end: CellRef::new(row, end.col) }
    } else {
        RangeRef::single(CellRef::new(row, col))
    };
    Ok(Reference::single(area.sheet, selected))
}

/// The one-based position of a cell along a lookup line: down the rows of a
/// range one column wide, along the columns otherwise.
pub open spec fn line_position(stated: RangeRef, cell: CellRef) -> int {
    if width_of(stated) == 1 {
        cell.row - stated.start.row + 1
    } else {
        cell.col - stated.start.col + 1
    }
}

proof fn lemma_reading_order_stays_inside(range: RangeRef, i: int)
    requires
        range.normalised(),
        0 <= i < range.cell_count(),
    ensures
        range.covers(range.nth_in_reading_order(i)),
{
    let width: int = range.end.col - range.start.col + 1;
    let height: int = range.end.row - range.start.row + 1;
    assert(0 <= i / width < height && 0 <= i % width < width) by (nonlinear_arith)
        requires
            width > 0,
            height > 0,
            0 <= i < height * width,
    ;
}

/// The cells a one-dimensional lookup walks, in reading order over the part
/// of the stated range that holds data, each with its one-based position in
/// the stated range. Positions are measured from the stated range so that
/// empty leading rows do not shift the answer.
pub fn lookup_vector(clipped: RangeRef, stated: RangeRef) -> (r: Vec<(u64, CellRef)>)
    requires
        clipped.normalised(),
        clipped.cell_count() <= usize::MAX,
        stated.normalised(),
        stated.covers(clipped.start),
        stated.covers(clipped.end),
    ensures
        r@.len() == clipped.cell_count(),
        forall|i: int|
            0 <= i < r@.len() ==> #[trigger] r@[i] == (
            line_position(stated, clipped.nth_in_reading_order(i)) as u64,
            clipped.nth_in_reading_order(i),
        ),
{
    let cells = clipped.cells();
    let vertical = stated.start.col == stated.end.col;
    let mut out: Vec<(u64, CellRef)> = Vec::new();
    let mut i: usize = 0;
    while i < cells.len()
        invariant
            i <= cells@.len(),
            cells@.len() == clipped.cell_count(),
            forall|k: int| 0 <= k < cells@.len() ==> #[trigger] cells@[k] == clipped.nth_in_reading_order(k),
            clipped.normalised(),
            stated.normalised(),
            stated.covers(clipped.start),
            stated.covers(clipped.end),
            vertical == (width_of(stated) == 1),
            out@.len() == i,
            forall|k: int|
                0 <= k < i ==> #[trigger] out@[k] == (
                line_position(stated, clipped.nth_in_reading_order(k)) as u64,
                clipped.nth_in_reading_order(k),
            ),
        decreases cells.len() - i,
    {
        let cell = cells[i];
        proof {
            lemma_reading_order_stays_inside(clipped, i as int);
        }
        let position: u64 = if vertical {
            (cell.row - stated.start.row) as u64 + 1
        } else {
            (cell.col - stated.start.col) as u64 + 1
        };
        out.push((position, cell));
        i = i + 1;
    }
    out
}

/// The line a table lookup searches: the first column of the table for
/// `VLOOKUP`, the first row for `HLOOKUP`.
pub open spec fn key_line(table: RangeRef, vertical: bool) -> RangeRef {
    if vertical {
        RangeRef { start: table.start, end: CellRef { row: table.end.row, col: table.start.col } }
    } else {
        RangeRef { start: table.start, end: CellRef { row: table.start.row, col: table.end.col } }
    }
}

/// What a table lookup with this offset searches: an offset below one is a
/// `#VALUE!`, one past the table's width (or height, for `HLOOKUP`) a
/// `#REF!`; otherwise the key line. The offset is read as a 32-bit position,
/// its higher bits dropped.
pub open spec fn table_spec(table: RangeRef, offset: int, vertical: bool) -> Result<RangeRef, CalcError> {
    let span = if vertical {
        width_of(table)
    } else {
        height_of(table)
    };
    if offset < 1 {
        Err(CalcError::Value)
    } else if wrap32(offset) > span {
        Err(CalcError::Ref)
    } else {
        Ok(key_line(table, vertical))
    }
}

/// Check the offset of `VLOOKUP(target, table, offset)` (or of `HLOOKUP`,
/// when `vertical` is false) against the stated table, and give the line
/// the target is searched for in.
///
/// Only the low 32 bits of the offset count, as for any sheet position.
pub fn lookup_table(table: RangeRef, offset: i64, vertical: bool) -> (r: Result<RangeRef, CalcError>)
    requires
        countable(table),
    ensures
        r == table_spec(table, offset as int, vertical),
{
    let span = if vertical {
        table.width()
    } else {
        table.height()
    };
    if offset < 1 {
        return Err(CalcError::Value);
    }
    if low_bits(offset) > span {
        return Err(CalcError::Ref);
    }
    if vertical {
        Ok(RangeRef { start: table.start, end: CellRef::new(table.end.row, table.start.col) })
    } else {
        Ok(RangeRef { start: table.start, end: CellRef::new(table.start.row, table.end.col) })
    }
}

/// The cell holding a table lookup's answer: the found key's position along
/// the key line, and the offset across it, both counted from one at the
/// table's corner. The offset is read as a 32-bit position and the column
/// (or row) across is reckoned in 32-bit arithmetic.
pub open spec fn answer_cell(table: RangeRef, position: int, offset: int, vertical: bool) -> CellRef {
    if vertical {
        CellRef { row: (table.start.row + position - 1) as u32, col: wrap32(table.start.col + wrap32(offset) - 1) }
    } else {
        CellRef { row: wrap32(table.start.row + wrap32(offset) - 1), col: (table.start.col + position - 1) as u32 }
    }
}

/// Where the answer of a table lookup is, once the key was found at
/// `position` on the key line that `lookup_table` gave for `offset`.
pub fn table_answer(table: RangeRef, position: u64, offset: i64, vertical: bool) -> (r: CellRef)
    requires
        countable(table),
        table_spec(table, offset as int, vertical) is Ok,
        1 <= position,
        vertical ==> position <= height_of(table),
        !vertical ==> position <= width_of(table),
    ensures
        r == answer_cell(table, position as int, offset as int, vertical),
        wrap32(offset as int) >= 1 ==> table.covers(r),
{
    let along = (position - 1) as u32;
    let across = low_bits(offset);
    if vertical {
        CellRef::new(table.start.row + along, step_from(table.start.col, across))
    } else {
        CellRef::new(step_from(table.start.row, across), table.start.col + along)
    }
}

/// How many cells the key line of a table holds.
pub open spec fn line_length(table: RangeRef, vertical: bool) -> int {
    if vertical {
        height_of(table)
    } else {
        width_of(table)
    }
}

/// What a table lookup answers: the offset is checked first; then a key that
/// was not found is a `#N/A`; else the answer is the cell across from the
/// found key.
pub open spec fn table_lookup_spec(table: RangeAddr, offset: int, vertical: bool, found: Option<u64>) -> Result<
    CellAddr,
    CalcError,
> {
    match table_spec(table.range, offset, vertical) {
        Err(e) => Err(e),
        Ok(_) => match found {
            None => Err(CalcError::NotAvailable),
            Some(p) => Ok(CellAddr { sheet: table.sheet, cell: answer_cell(table.range, p as int, offset, vertical) }),
        },
    }
}

/// `VLOOKUP` (or `HLOOKUP`, when `vertical` is false) over a stated table:
/// `found` is the one-based position at which the search of the key line
/// found the target, if it did. The answer is the cell whose value the
/// lookup returns, or its error.
pub fn table_lookup(table: RangeAddr, offset: i64, vertical: bool, found: Option<u64>) -> (r: Result<
    CellAddr,
    CalcError,
>)
    requires
        countable(table.range),
        found matches Some(p) ==> 1 <= p <= line_length(table.range, vertical),
    ensures
        r == table_lookup_spec(table, offset as int, vertical, found),
{
    match lookup_table(table.range, offset, vertical) {
        Err(e) => Err(e),
        Ok(_) => match found {
            None => Err(CalcError::NotAvailable),
            Some(p) => Ok(CellAddr::new(table.sheet, table_answer(table.range, p, offset, vertical))),
        },
    }
}

/// What `INDEX` picks out of an array at a row and column index, both
/// counting from one: an index below one is a `#VALUE!`, one past the
/// array's edge a `#REF!`. An index is read as a 32-bit position, its higher
/// bits dropped, and the step back to counting from zero wraps in 32 bits.
pub open spec fn array_index_spec<T>(array: Array<T>, r: int, c: int) -> Result<T, CalcError> {
    let row = wrap32(wrap32(r) - 1) as int;
    let col = wrap32(wrap32(c) - 1) as int;
    if r < 1 || c < 1 {
        Err(CalcError::Value)
    } else if row >= array.height() || col >= array.width() {
        Err(CalcError::Ref)
    } else {
        Ok(array.at(row, col))
    }
}

/// `INDEX(array, first, [second])` on an array once its index arguments are
/// whole numbers. With one index over a single row it addresses along the
/// row, otherwise down the first column.
pub fn index_array<T>(array: &Array<T>, first: i64, second: Option<i64>) -> (r: Result<&T, CalcError>)
    ensures
        ({
            let (row, col) = match second {
                Some(c) => (first as int, c as int),
                None => if array.height() == 1 {
                    (1int, first as int)
                } else {
                    (first as int, 1int)
                },
            };
            match array_index_spec(*array, row, col) {
                Ok(v) => r matches Ok(x) && *x == v,
                Err(e) => r matches Err(x) && x == e,
            }
        }),
{
    let (row_index, col_index): (i64, i64) = match second {
        Some(col) => (first, col),
        None => if array.rows() == 1 {
            (1, first)
        } else {
            (first, 1)
        },
    };
    if row_index < 1 || col_index < 1 {
        return Err(CalcError::Value);
    }
    match array.get(step_from(0, low_bits(row_index)), step_from(0, low_bits(col_index))) {
        Some(v) => Ok(v),
        None => Err(CalcError::Ref),
    }
}

/// A whole number that already fits in 32 bits keeps all of them.
proof fn lemma_wrap32_small(x: int)
    requires
        0 <= x < 4294967296,
    ensures
        wrap32(x) == x,
{
    vstd::arithmetic::div_mod::lemma_small_mod(x as nat, 4294967296);
}

/// `INDEX` with a row and a column inside the area picks one cell: the one
/// at that place when the area is read left to right, then top to bottom.
/// With a zero column it picks the whole row, and with a zero row the whole
/// column: exactly the area's cells on that row or column.
pub proof fn lemma_index_picks_by_position(area: RangeAddr, r: int, c: int)
    requires
        countable(area.range),
        0 <= r <= height_of(area.range),
        0 <= c <= width_of(area.range),
    ensures
        index_spec(area, r, c) is Ok,
        index_spec(area, r, c)->Ok_0.sheet == area.sheet,
        r >= 1 && c >= 1 ==> ({
            let cell = area.range.nth_in_reading_order((r - 1) * width_of(area.range) + (c - 1));
            index_spec(area, r, c)->Ok_0.range == RangeRef { start: cell, end: cell }
        }),
        forall|x: CellRef|
            #![trigger index_spec(area, r, c)->Ok_0.range.covers(x)]
            (r >= 1 && c == 0 ==> (index_spec(area, r, c)->Ok_0.range.covers(x) <==> area.range.covers(x)
                && x.row == area.range.start.row + r - 1)) && (r == 0 && c >= 1 ==> (index_spec(
                area,
                r,
                c,
            )->Ok_0.range.covers(x) <==> area.range.covers(x) && x.col == area.range.start.col + c - 1)),
{
    let s = area.range.start;
    let w = width_of(area.range);
    lemma_wrap32_small(r);
    lemma_wrap32_small(c);
    if r >= 1 {
        lemma_wrap32_small(s.row + r - 1);
    }
    if c >= 1 {
        lemma_wrap32_small(s.col + c - 1);
    }
    if r >= 1 && c >= 1 {
        let i = (r - 1) * w + (c - 1);
        assert(i / w == r - 1 && i % w == c - 1) by (nonlinear_arith)
            requires
                i == (r - 1) * w + (c - 1),
                0 <= c - 1 < w,
                0 <= r - 1,
        ;
    }
}

} // verus!
