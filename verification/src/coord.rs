//! Addressing the grid.
//!
//! Rows and columns are zero-based everywhere inside the engine and one-based
//! only where a human sees them, so that indexing never needs an adjustment at
//! the point of use. [`A1Ref`] is the bridge between the two.

use vstd::prelude::*;
use vstd::math::{max, min};

use crate::text::{
    ascii_alpha, ascii_digit, decimal, digits_value, is_ascii_alpha, is_ascii_digit,
    is_ascii_lower, is_ascii_upper, push_char, push_decimal, lemma_decimal_shape, string_from,
    chars_of,
};

verus! {

/// Highest zero-based row index. The grid holds 1,048,576 rows.
pub const MAX_ROW: u32 = 1_048_575;

/// Highest zero-based column index. The grid holds 16,384 columns, `A` to `XFD`.
pub const MAX_COL: u32 = 16_383;

/// Longest column label the grid can produce.
pub const MAX_COLUMN_LABEL_LEN: usize = 3;

/// Identifies a sheet within one workbook.
///
/// Stable for the lifetime of the workbook: deleting a sheet retires its id
/// rather than renumbering the others, so references held elsewhere cannot
/// silently start pointing at a different sheet.
#[derive(Clone, Copy, PartialEq, Eq, Structural, PartialOrd, Ord, Hash, Debug)]
pub struct SheetId(pub u32);

/// A cell together with the sheet it lives on.
#[derive(Clone, Copy, PartialEq, Eq, Structural, PartialOrd, Ord, Hash, Debug)]
pub struct CellAddr {
    pub sheet: SheetId,
    pub cell: CellRef,
}

impl CellAddr {
    pub fn new(sheet: SheetId, cell: CellRef) -> (r: Self)
        ensures
            r == (CellAddr { sheet, cell }),
    {
        CellAddr { sheet, cell }
    }
}

/// A range together with the sheet it lives on.
#[derive(Clone, Copy, PartialEq, Eq, Structural, Hash, Debug)]
pub struct RangeAddr {
    pub sheet: SheetId,
    pub range: RangeRef,
}

impl RangeAddr {
    pub fn new(sheet: SheetId, range: RangeRef) -> (r: Self)
        ensures
            r == (RangeAddr { sheet, range }),
    {
        RangeAddr { sheet, range }
    }

    /// Whether `addr` is on this sheet and inside this range.
    pub open spec fn holds(self, addr: CellAddr) -> bool {
        self.sheet == addr.sheet && self.range.covers(addr.cell)
    }

    pub fn contains(&self, addr: CellAddr) -> (b: bool)
        ensures
            b == self.holds(addr),
    {
        self.sheet.0 == addr.sheet.0 && self.range.contains(addr.cell)
    }
}

/// A cell position. Zero-based on both axes.
#[derive(Clone, Copy, PartialEq, Eq, Structural, PartialOrd, Ord, Hash, Debug, Default)]
pub struct CellRef {
    pub row: u32,
    pub col: u32,
}

impl CellRef {
    pub fn new(row: u32, col: u32) -> (r: Self)
        ensures
            r == (CellRef { row, col }),
    {
        CellRef { row, col }
    }

    /// Both axes inside the grid.
    pub open spec fn in_grid(self) -> bool {
        self.row <= MAX_ROW && self.col <= MAX_COL
    }

    /// True when both axes are inside the grid.
    pub fn is_valid(self) -> (b: bool)
        ensures
            b == self.in_grid(),
    {
        self.row <= MAX_ROW && self.col <= MAX_COL
    }

    /// Where a cell lands after moving by a signed offset, if that stays on
    /// the grid.
    pub open spec fn moved(self, rows: int, cols: int) -> Option<CellRef> {
        let row = self.row + rows;
        let col = self.col + cols;
        if 0 <= row <= MAX_ROW && 0 <= col <= MAX_COL {
            Some(CellRef { row: row as u32, col: col as u32 })
        } else {
            None
        }
    }

    /// Move by a signed offset, returning `None` if that leaves the grid.
    ///
    /// Used when a formula is copied: a relative reference shifts by the same
    /// delta as the cell holding it.
    pub fn offset(self, rows: i64, cols: i64) -> (r: Option<Self>)
        ensures
            r == self.moved(rows as int, cols as int),
    {
        let row64: i64 = self.row as i64;
        let col64: i64 = self.col as i64;
        let row = match row64.checked_add(rows) {
            Some(v) => v,
            None => {
                return None;
            },
        };
        let col = match col64.checked_add(cols) {
            Some(v) => v,
            None => {
                return None;
            },
        };
        if row < 0 || row > u32::MAX as i64 || col < 0 || col > u32::MAX as i64 {
            return None;
        }
        let moved = CellRef { row: row as u32, col: col as u32 };
        if moved.is_valid() {
            Some(moved)
        } else {
            None
        }
    }

    /// The `A1` spelling of a cell.
    pub open spec fn a1_text(self) -> Seq<char> {
        column_label_text(self.col) + decimal((self.row + 1) as nat)
    }

    /// Render as `A1`.
    pub fn to_a1(self) -> (s: String)
        requires
            self.row < u32::MAX,
            self.col < u32::MAX,
        ensures
            s@ == self.a1_text(),
    {
        let mut s = column_label(self.col);
        push_decimal(&mut s, self.row as u64 + 1);
        s
    }
}

/// A cell reference as written in a formula, keeping the `$` markers.
///
/// The markers do not affect which cell is addressed. They decide whether the
/// reference moves when the formula is copied.
#[derive(Clone, Copy, PartialEq, Eq, Structural, Hash, Debug)]
pub struct A1Ref {
    pub cell: CellRef,
    pub col_absolute: bool,
    pub row_absolute: bool,
}

impl A1Ref {
    pub fn relative(cell: CellRef) -> (r: Self)
        ensures
            r == (A1Ref { cell, col_absolute: false, row_absolute: false }),
    {
        A1Ref { cell, col_absolute: false, row_absolute: false }
    }

    pub fn absolute(cell: CellRef) -> (r: Self)
        ensures
            r == (A1Ref { cell, col_absolute: true, row_absolute: true }),
    {
        A1Ref { cell, col_absolute: true, row_absolute: true }
    }

    /// Parse one reference, such as `A1`, `$B$7` or `c$3`.
    pub fn parse(text: &str) -> (r: Result<Self, ParseRefError>)
        ensures
            r == parse_a1(text@),
    {
        let chars = chars_of(text);
        parse_a1_chars(&chars)
    }

    /// The spelling of this reference, with its `$` markers.
    pub open spec fn a1_text(self) -> Seq<char> {
        (if self.col_absolute { seq!['$'] } else { Seq::empty() })
            + column_label_text(self.cell.col)
            + (if self.row_absolute { seq!['$'] } else { Seq::empty() })
            + decimal((self.cell.row + 1) as nat)
    }

    /// Render with the `$` markers the reference was written with.
    pub fn to_a1(self) -> (s: String)
        requires
            self.cell.row < u32::MAX,
            self.cell.col < u32::MAX,
        ensures
            s@ == self.a1_text(),
    {
        let mut s = String::new();
        if self.col_absolute {
            push_char(&mut s, '$');
        }
        let label = column_label_chars(self.cell.col);
        crate::text::push_chars(&mut s, &label);
        if self.row_absolute {
            push_char(&mut s, '$');
        }
        push_decimal(&mut s, self.cell.row as u64 + 1);
        s
    }

    /// What copying this reference by an offset gives: the relative parts
    /// move, the absolute parts stay.
    pub open spec fn shifted(self, rows: int, cols: int) -> Option<A1Ref> {
        match self.cell.moved(
            if self.row_absolute { 0 } else { rows },
            if self.col_absolute { 0 } else { cols },
        ) {
            Some(cell) => Some(A1Ref { cell, ..self }),
            None => None,
        }
    }

    /// Shift the parts of this reference that are relative.
    ///
    /// Returns `None` when the result would leave the grid, which is the
    /// condition that turns a copied reference into `#REF!`.
    pub fn offset(self, rows: i64, cols: i64) -> (r: Option<Self>)
        ensures
            r == self.shifted(rows as int, cols as int),
    {
        let moved = self.cell.offset(
            if self.row_absolute { 0 } else { rows },
            if self.col_absolute { 0 } else { cols },
        );
        match moved {
            Some(cell) => Some(A1Ref { cell, col_absolute: self.col_absolute, row_absolute: self.row_absolute }),
            None => None,
        }
    }
}

/// A rectangular block of cells, inclusive of both corners.
///
/// Normalised so that `start` is the top-left corner when built by
/// [`RangeRef::new`]. A whole column is a range spanning every row; a whole
/// row spans every column.
#[derive(Clone, Copy, PartialEq, Eq, Structural, Hash, Debug)]
pub struct RangeRef {
    pub start: CellRef,
    pub end: CellRef,
}

impl RangeRef {
    /// `start` is the top-left corner and `end` the bottom-right.
    pub open spec fn normalised(self) -> bool {
        self.start.row <= self.end.row && self.start.col <= self.end.col
    }

    /// Whether the range covers a cell.
    pub open spec fn covers(self, cell: CellRef) -> bool {
        self.start.row <= cell.row <= self.end.row && self.start.col <= cell.col <= self.end.col
    }

    /// Build a range from two opposite corners, in either order.
    pub fn new(a: CellRef, b: CellRef) -> (r: Self)
        ensures
            r.start.row == min(a.row as int, b.row as int),
            r.start.col == min(a.col as int, b.col as int),
            r.end.row == max(a.row as int, b.row as int),
            r.end.col == max(a.col as int, b.col as int),
            r.normalised(),
    {
        RangeRef {
            start: CellRef {
                row: if a.row <= b.row { a.row } else { b.row },
                col: if a.col <= b.col { a.col } else { b.col },
            },
            end: CellRef {
                row: if a.row >= b.row { a.row } else { b.row },
                col: if a.col >= b.col { a.col } else { b.col },
            },
        }
    }

    pub fn single(cell: CellRef) -> (r: Self)
        ensures
            r == (RangeRef { start: cell, end: cell }),
    {
        RangeRef { start: cell, end: cell }
    }

    /// Every row of the given columns.
    pub fn whole_columns(first: u32, last: u32) -> (r: Self)
        ensures
            r == (RangeRef {
                start: CellRef { row: 0, col: first },
                end: CellRef { row: MAX_ROW, col: last },
            }),
    {
        RangeRef { start: CellRef::new(0, first), end: CellRef::new(MAX_ROW, last) }
    }

    /// Every column of the given rows.
    pub fn whole_rows(first: u32, last: u32) -> (r: Self)
        ensures
            r == (RangeRef {
                start: CellRef { row: first, col: 0 },
                end: CellRef { row: last, col: MAX_COL },
            }),
    {
        RangeRef { start: CellRef::new(first, 0), end: CellRef::new(last, MAX_COL) }
    }

    pub fn height(&self) -> (h: u32)
        requires
            self.start.row <= self.end.row,
            self.end.row - self.start.row < u32::MAX,
        ensures
            h == self.end.row - self.start.row + 1,
    {
        self.end.row - self.start.row + 1
    }

    pub fn width(&self) -> (w: u32)
        requires
            self.start.col <= self.end.col,
            self.end.col - self.start.col < u32::MAX,
        ensures
            w == self.end.col - self.start.col + 1,
    {
        self.end.col - self.start.col + 1
    }

    /// Number of cells covered.
    pub open spec fn cell_count(self) -> int {
        (self.end.row - self.start.row + 1) * (self.end.col - self.start.col + 1)
    }

    /// Number of cells covered. A whole column alone exceeds `u32`.
    pub fn area(&self) -> (a: u64)
        requires
            self.start.row <= self.end.row,
            self.end.row - self.start.row < u32::MAX,
            self.start.col <= self.end.col,
            self.end.col - self.start.col < u32::MAX,
        ensures
            a == self.cell_count(),
    {
        let h = self.height() as u64;
        let w = self.width() as u64;
        assert(h * w <= u32::MAX * u32::MAX) by (nonlinear_arith)
            requires
                h <= u32::MAX,
                w <= u32::MAX,
        ;
        h * w
    }

    pub fn contains(&self, cell: CellRef) -> (b: bool)
        ensures
            b == self.covers(cell),
    {
        cell.row >= self.start.row && cell.row <= self.end.row && cell.col >= self.start.col
            && cell.col <= self.end.col
    }

    /// The two ranges' row and column spans overlap.
    pub open spec fn overlaps(self, other: RangeRef) -> bool {
        self.start.row <= other.end.row && other.start.row <= self.end.row && self.start.col
            <= other.end.col && other.start.col <= self.end.col
    }

    pub fn intersects(&self, other: &Self) -> (b: bool)
        ensures
            b == self.overlaps(*other),
    {
        self.start.row <= other.end.row && other.start.row <= self.end.row && self.start.col
            <= other.end.col && other.start.col <= self.end.col
    }

    /// The overlap of two ranges, or `None` when they are disjoint.
    pub fn intersection(&self, other: &Self) -> (r: Option<Self>)
        ensures
            r == (if self.overlaps(*other) {
                Some(
                    RangeRef {
                        start: CellRef {
                            row: max(self.start.row as int, other.start.row as int) as u32,
                            col: max(self.start.col as int, other.start.col as int) as u32,
                        },
                        end: CellRef {
                            row: min(self.end.row as int, other.end.row as int) as u32,
                            col: min(self.end.col as int, other.end.col as int) as u32,
                        },
                    },
                )
            } else {
                None
            }),
    {
        if self.intersects(other) {
            Some(
                RangeRef {
                    start: CellRef {
                        row: if self.start.row >= other.start.row { self.start.row } else { other.start.row },
                        col: if self.start.col >= other.start.col { self.start.col } else { other.start.col },
                    },
                    end: CellRef {
                        row: if self.end.row <= other.end.row { self.end.row } else { other.end.row },
                        col: if self.end.col <= other.end.col { self.end.col } else { other.end.col },
                    },
                },
            )
        } else {
            None
        }
    }

    /// The smallest range covering both operands.
    pub fn union_bounds(&self, other: &Self) -> (r: Self)
        ensures
            r.start.row == min(self.start.row as int, other.start.row as int),
            r.start.col == min(self.start.col as int, other.start.col as int),
            r.end.row == max(self.end.row as int, other.end.row as int),
            r.end.col == max(self.end.col as int, other.end.col as int),
    {
        RangeRef {
            start: CellRef {
                row: if self.start.row <= other.start.row { self.start.row } else { other.start.row },
                col: if self.start.col <= other.start.col { self.start.col } else { other.start.col },
            },
            end: CellRef {
                row: if self.end.row >= other.end.row { self.end.row } else { other.end.row },
                col: if self.end.col >= other.end.col { self.end.col } else { other.end.col },
            },
        }
    }

    /// The cell at position `i` when the range is read left to right, then
    /// top to bottom.
    pub open spec fn nth_in_reading_order(self, i: int) -> CellRef {
        let width = self.end.col - self.start.col + 1;
        CellRef { row: (self.start.row + i / width) as u32, col: (self.start.col + i % width) as u32 }
    }

    /// Walk the range in reading order: left to right, then top to bottom.
    pub fn cells(&self) -> (r: Vec<CellRef>)
        requires
            self.normalised(),
            self.cell_count() <= usize::MAX,
        ensures
            r@.len() == self.cell_count(),
            forall|i: int| 0 <= i < r@.len() ==> #[trigger] r@[i] == self.nth_in_reading_order(i),
    {
        let mut out: Vec<CellRef> = Vec::new();
        let ghost width: int = self.end.col - self.start.col + 1;
        let ghost height: int = self.end.row - self.start.row + 1;
        let mut row: u32 = self.start.row;
        loop
            invariant_except_break
                self.start.row <= row <= self.end.row,
                out@.len() == (row - self.start.row) * width,
            invariant
                self.normalised(),
                width == self.end.col - self.start.col + 1,
                height == self.end.row - self.start.row + 1,
                forall|i: int| 0 <= i < out@.len() ==> #[trigger] out@[i] == self.nth_in_reading_order(i),
                self.cell_count() <= usize::MAX,
            ensures
                out@.len() == height * width,
            decreases self.end.row - row,
        {
            let mut col: u32 = self.start.col;
            loop
                invariant_except_break
                    self.start.col <= col <= self.end.col,
                    out@.len() == (row - self.start.row) * width + (col - self.start.col),
                invariant
                    self.normalised(),
                    self.start.row <= row <= self.end.row,
                    width == self.end.col - self.start.col + 1,
                    height == self.end.row - self.start.row + 1,
                    forall|i: int| 0 <= i < out@.len() ==> #[trigger] out@[i] == self.nth_in_reading_order(i),
                    self.cell_count() <= usize::MAX,
                ensures
                    out@.len() == (row - self.start.row) * width + width,
                decreases self.end.col - col,
            {
                proof {
                    let r: int = row - self.start.row;
                    let c: int = col - self.start.col;
                    assert((r * width + c) / width == r && (r * width + c) % width == c) by (nonlinear_arith)
                        requires
                            0 <= c < width,
                            0 <= r,
                    ;
                    assert(r * width + c < height * width) by (nonlinear_arith)
                        requires
                            0 <= c < width,
                            0 <= r,
                            r < height,
                    ;
                }
                out.push(CellRef { row, col });
                if col == self.end.col {
                    break;
                }
                col = col + 1;
            }
            proof {
                let r: int = row - self.start.row;
                assert(r * width + width == (r + 1) * width) by (nonlinear_arith);
            }
            if row == self.end.row {
                break;
            }
            row = row + 1;
        }
        out
    }

    /// The spelling of a range: `A1:B2`, or `A1` for a single cell.
    pub open spec fn a1_text(self) -> Seq<char> {
        if self.start == self.end {
            self.start.a1_text()
        } else {
            self.start.a1_text() + seq![':'] + self.end.a1_text()
        }
    }

    /// Render as `A1:B2`, collapsing a single cell to `A1`.
    pub fn to_a1(&self) -> (s: String)
        requires
            self.start.row < u32::MAX,
            self.start.col < u32::MAX,
            self.end.row < u32::MAX,
            self.end.col < u32::MAX,
        ensures
            s@ == self.a1_text(),
    {
        if self.start == self.end {
            self.start.to_a1()
        } else {
            let mut s = self.start.to_a1();
            push_char(&mut s, ':');
            let tail = self.end.to_a1();
            crate::text::push_str(&mut s, tail.as_str());
            s
        }
    }
}

/// Why a reference could not be read.
#[derive(Clone, Copy, PartialEq, Eq, Structural, Debug)]
pub enum ParseRefError {
    /// The text is not shaped like a reference at all.
    Malformed,
    /// The column letters name a column past the last one.
    ColumnRange,
    /// The row number is zero, or past the last row.
    RowRange,
}

impl ParseRefError {
    /// The message a person is shown.
    pub fn message(&self) -> (s: &'static str)
        ensures
            s@ == self.message_text(),
    {
        match self {
            ParseRefError::Malformed => "not a cell reference",
            ParseRefError::ColumnRange => "column is outside the grid",
            ParseRefError::RowRange => "row is outside the grid",
        }
    }

    pub closed spec fn message_text(self) -> Seq<char> {
        match self {
            ParseRefError::Malformed => "not a cell reference"@,
            ParseRefError::ColumnRange => "column is outside the grid"@,
            ParseRefError::RowRange => "row is outside the grid"@,
        }
    }
}

// ---------------------------------------------------------------------------
// Column letters.

/// The capital letter for a digit of the bijective base-26 numbering.
pub open spec fn letter(d: nat) -> char {
    ((d + 65) as u32) as char
}

/// Bijective base-26: 1 is `A`, 26 is `Z`, 27 is `AA`. Zero is empty.
pub open spec fn bijective(n: nat) -> Seq<char>
    decreases n,
{
    if n == 0 {
        Seq::empty()
    } else {
        bijective(((n - 1) / 26) as nat).push(letter(((n - 1) % 26) as nat))
    }
}

/// The letters of a zero-based column: `A` for 0, `XFD` for 16383. Past `ZZZ`
/// only the last three letters are kept, which is as many as a label holds.
pub open spec fn column_label_text(col: u32) -> Seq<char> {
    let full = bijective((col + 1) as nat);
    if full.len() <= 3 {
        full
    } else {
        full.subrange(full.len() - 3, full.len() as int)
    }
}

/// Where a letter sits in the alphabet, whatever its case.
pub open spec fn letter_index(c: char) -> nat {
    if is_ascii_upper(c) {
        ((c as u32) - 65) as nat
    } else {
        ((c as u32) - 97) as nat
    }
}

/// What a run of letters counts to, read as bijective base-26.
pub open spec fn letters_value(s: Seq<char>) -> nat
    decreases s.len(),
{
    if s.len() == 0 {
        0
    } else {
        letters_value(s.drop_last()) * 26 + letter_index(s.last()) + 1
    }
}

/// The column named by some letters, if they name one inside the grid.
pub open spec fn column_of_letters(s: Seq<char>) -> Option<u32> {
    if 1 <= s.len() <= 3 && (forall|i: int| 0 <= i < s.len() ==> is_ascii_alpha(#[trigger] s[i]))
        && letters_value(s) >= 1 && letters_value(s) - 1 <= MAX_COL {
        Some((letters_value(s) - 1) as u32)
    } else {
        None
    }
}

fn letter_char(d: u32) -> (c: char)
    requires
        d < 26,
    ensures
        c == letter(d as nat),
{
    let chars: [char; 26] = [
        'A', 'B', 'C', 'D', 'E', 'F', 'G', 'H', 'I', 'J', 'K', 'L', 'M', 'N', 'O', 'P', 'Q', 'R',
        'S', 'T', 'U', 'V', 'W', 'X', 'Y', 'Z',
    ];
    let c = chars[d as usize];
    assert(c == letter(d as nat)) by {
        assert(chars@ =~= seq![
            'A', 'B', 'C', 'D', 'E', 'F', 'G', 'H', 'I', 'J', 'K', 'L', 'M', 'N', 'O', 'P', 'Q',
            'R', 'S', 'T', 'U', 'V', 'W', 'X', 'Y', 'Z',
        ]);
    }
    c
}

fn column_label_chars(col: u32) -> (r: Vec<char>)
    requires
        col < u32::MAX,
    ensures
        r@ == column_label_text(col),
{
    let mut remaining: u32 = col + 1;
    let mut letters: Vec<char> = Vec::new();
    let ghost full = bijective((col + 1) as nat);
    assert(full == bijective(remaining as nat) + letters@);
    while remaining > 0 && letters.len() < MAX_COLUMN_LABEL_LEN
        invariant
            full == bijective((col + 1) as nat),
            full == bijective(remaining as nat) + letters@,
            letters@.len() <= 3,
            remaining > 0 ==> bijective(remaining as nat).len() >= 1,
        decreases remaining,
    {
        let digit = (remaining - 1) % 26;
        let c = letter_char(digit);
        let ghost before = letters@;
        letters.insert(0, c);
        let next = (remaining - 1) / 26;
        assert(bijective(remaining as nat) == bijective(next as nat).push(c));
        assert(full == bijective(next as nat) + letters@) by {
            assert(bijective(next as nat).push(c) + before =~= bijective(next as nat) + letters@);
        }
        remaining = next;
        proof {
            if remaining > 0 {
                lemma_bijective_nonempty(remaining as nat);
            }
        }
    }
    proof {
        lemma_bijective_nonempty((col + 1) as nat);
        if remaining == 0 {
            assert(bijective(0) =~= Seq::<char>::empty());
            assert(letters@ =~= full);
        } else {
            assert(letters@.len() == 3);
            assert(full.len() > 3);
            assert(letters@ =~= full.subrange(full.len() - 3, full.len() as int));
        }
    }
    letters
}

/// Turn a zero-based column index into its letters: 0 gives `A`, 16383 gives `XFD`.
pub fn column_label(col: u32) -> (s: String)
    requires
        col < u32::MAX,
    ensures
        s@ == column_label_text(col),
{
    let letters = column_label_chars(col);
    string_from(&letters)
}

fn letter_value(c: char) -> (d: Option<u32>)
    ensures
        d == (if is_ascii_alpha(c) { Some(letter_index(c) as u32) } else { None::<u32> }),
{
    if 'A' <= c && c <= 'Z' {
        Some((c as u32) - 65)
    } else if 'a' <= c && c <= 'z' {
        Some((c as u32) - 97)
    } else {
        None
    }
}

pub(crate) fn column_of_chars(letters: &Vec<char>) -> (r: Option<u32>)
    ensures
        r == column_of_letters(letters@),
{
    if letters.len() == 0 || letters.len() > MAX_COLUMN_LABEL_LEN {
        return None;
    }
    let mut value: u32 = 0;
    let mut i: usize = 0;
    while i < letters.len()
        invariant
            1 <= letters@.len() <= 3,
            i <= letters@.len(),
            value == letters_value(letters@.subrange(0, i as int)),
            forall|j: int| 0 <= j < i ==> is_ascii_alpha(#[trigger] letters@[j]),
            value <= 26 * 26 * 26 + 26 * 26 + 26,
            i == 0 ==> value == 0,
            i == 1 ==> value <= 26,
            i == 2 ==> value <= 26 * 26 + 26,
        decreases letters.len() - i,
    {
        let d = match letter_value(letters[i]) {
            Some(d) => d,
            None => {
                return None;
            },
        };
        assert(letters@.subrange(0, i + 1).drop_last() =~= letters@.subrange(0, i as int));
        value = value * 26 + d + 1;
        i = i + 1;
    }
    assert(letters@.subrange(0, letters@.len() as int) =~= letters@);
    if value >= 1 && value - 1 <= MAX_COL {
        Some(value - 1)
    } else {
        None
    }
}

/// Read column letters into a zero-based index. Case-insensitive.
///
/// Returns `None` for anything that is not one to three letters naming a
/// column inside the grid.
pub fn parse_column_label(letters: &str) -> (r: Option<u32>)
    ensures
        r == column_of_letters(letters@),
{
    let chars = chars_of(letters);
    column_of_chars(&chars)
}

pub proof fn lemma_bijective_nonempty(n: nat)
    requires
        n >= 1,
    ensures
        bijective(n).len() >= 1,
{
}

/// A column inside the grid takes one to three letters, all capitals.
pub proof fn lemma_label_shape(col: u32)
    requires
        col <= MAX_COL,
    ensures
        1 <= bijective((col + 1) as nat).len() <= 3,
        column_label_text(col) == bijective((col + 1) as nat),
        forall|i: int|
            0 <= i < column_label_text(col).len() ==> is_ascii_upper(#[trigger] column_label_text(col)[i]),
{
    let n: nat = (col + 1) as nat;
    let q1: nat = ((n - 1) / 26) as nat;
    assert(bijective(n) == bijective(q1).push(letter(((n - 1) % 26) as nat)));
    assert(q1 <= 630);
    if q1 > 0 {
        let q2: nat = ((q1 - 1) / 26) as nat;
        assert(bijective(q1) == bijective(q2).push(letter(((q1 - 1) % 26) as nat)));
        assert(q2 <= 24);
        if q2 > 0 {
            let q3: nat = ((q2 - 1) / 26) as nat;
            assert(bijective(q2) == bijective(q3).push(letter(((q2 - 1) % 26) as nat)));
            assert(q3 == 0);
            assert(bijective(q3) =~= Seq::<char>::empty());
        } else {
            assert(bijective(q2) =~= Seq::<char>::empty());
        }
    } else {
        assert(bijective(q1) =~= Seq::<char>::empty());
    }
    lemma_bijective_upper(n);
}

proof fn lemma_bijective_upper(n: nat)
    ensures
        forall|i: int| 0 <= i < bijective(n).len() ==> is_ascii_upper(#[trigger] bijective(n)[i]),
    decreases n,
{
    if n > 0 {
        let q: nat = ((n - 1) / 26) as nat;
        lemma_bijective_upper(q);
        let d: nat = ((n - 1) % 26) as nat;
        assert((letter(d) as u32) == d + 65);
        assert(bijective(n) == bijective(q).push(letter(d)));
        assert forall|i: int| 0 <= i < bijective(n).len() implies is_ascii_upper(#[trigger] bijective(n)[i]) by {
            if i < bijective(q).len() {
                assert(bijective(n)[i] == bijective(q)[i]);
            }
        }
    }
}

/// Reading back the letters of `n` gives `n`.
pub proof fn lemma_bijective_value(n: nat)
    ensures
        letters_value(bijective(n)) == n,
    decreases n,
{
    if n == 0 {
        assert(bijective(0) =~= Seq::<char>::empty());
    } else {
        let q: nat = ((n - 1) / 26) as nat;
        let d: nat = ((n - 1) % 26) as nat;
        lemma_bijective_value(q);
        assert(bijective(n).drop_last() =~= bijective(q));
        assert((letter(d) as u32) == d + 65);
        assert(n == q * 26 + d + 1);
    }
}

/// Capital letters that count to `v` are exactly the letters of `v`.
pub proof fn lemma_letters_unique(s: Seq<char>)
    requires
        forall|i: int| 0 <= i < s.len() ==> is_ascii_upper(#[trigger] s[i]),
    ensures
        bijective(letters_value(s)) == s,
    decreases s.len(),
{
    if s.len() == 0 {
        assert(bijective(0) =~= s);
    } else {
        let init = s.drop_last();
        assert forall|i: int| 0 <= i < init.len() implies is_ascii_upper(#[trigger] init[i]) by {
            assert(init[i] == s[i]);
        }
        lemma_letters_unique(init);
        let v = letters_value(s);
        let d = letter_index(s.last());
        assert(d < 26);
        assert(v == letters_value(init) * 26 + d + 1);
        assert(((v - 1) / 26) as nat == letters_value(init));
        assert(((v - 1) % 26) as nat == d);
        assert(letter(d) == s.last()) by {
            assert((letter(d) as u32) == d + 65);
            assert((letter(d) as u32) == (s.last() as u32));
            vstd::utf8::char_u32_cast(s.last(), s.last() as u32);
        }
        assert(s =~= init.push(s.last()));
    }
}

/// Every column inside the grid reads back from its own label.
pub proof fn lemma_column_label_round_trip(col: u32)
    requires
        col <= MAX_COL,
    ensures
        column_of_letters(column_label_text(col)) == Some(col),
{
    lemma_label_shape(col);
    lemma_bijective_value((col + 1) as nat);
    let s = column_label_text(col);
    assert forall|i: int| 0 <= i < s.len() implies is_ascii_alpha(#[trigger] s[i]) by {
        assert(is_ascii_upper(s[i]));
    }
}

/// Whether one cell comes strictly before another in reading order: an
/// earlier row, or the same row and an earlier column.
pub open spec fn strictly_before(a: CellRef, b: CellRef) -> bool {
    a.row < b.row || (a.row == b.row && a.col < b.col)
}

/// Walking a range in reading order visits exactly its cells: given the walk
/// (as `RangeRef::cells` gives it, the cell at each position), every cell
/// visited is in the range, and a cell is in the range exactly when it is
/// visited; each comes strictly after the one before, so none comes twice.
pub proof fn lemma_cells_are_the_range(r: RangeRef, cells: Seq<CellRef>)
    requires
        r.normalised(),
        cells.len() == r.cell_count(),
        forall|i: int| 0 <= i < cells.len() ==> #[trigger] cells[i] == r.nth_in_reading_order(i),
    ensures
        forall|i: int| 0 <= i < cells.len() ==> r.covers(#[trigger] cells[i]),
        forall|c: CellRef| #[trigger] cells.contains(c) <==> r.covers(c),
        forall|i: int, j: int| 0 <= i < j < cells.len() ==> strictly_before(#[trigger] cells[i], #[trigger] cells[j]),
        cells.no_duplicates(),
{
    let w: int = r.end.col - r.start.col + 1;
    let h: int = r.end.row - r.start.row + 1;
    assert(r.cell_count() == h * w);
    assert forall|i: int| 0 <= i < cells.len() implies r.covers(#[trigger] cells[i]) by {
        assert(0 <= i / w < h && 0 <= i % w < w) by (nonlinear_arith)
            requires
                w > 0,
                h > 0,
                0 <= i < h * w,
        ;
    }
    assert forall|i: int, j: int| 0 <= i < j < cells.len() implies strictly_before(#[trigger] cells[i], #[trigger] cells[j]) by {
        assert(i / w < j / w || (i / w == j / w && i % w < j % w)) by (nonlinear_arith)
            requires
                w > 0,
                0 <= i < j,
        ;
        assert(0 <= i / w && 0 <= i % w < w && 0 <= j % w < w) by (nonlinear_arith)
            requires
                w > 0,
                0 <= i < j,
        ;
        assert(j / w < h) by (nonlinear_arith)
            requires
                w > 0,
                h > 0,
                0 <= j < h * w,
        ;
    }
    assert forall|c: CellRef| #[trigger] cells.contains(c) <==> r.covers(c) by {
        if r.covers(c) {
            let a: int = c.row - r.start.row;
            let b: int = c.col - r.start.col;
            let i: int = a * w + b;
            assert(i / w == a && i % w == b && 0 <= i < h * w) by (nonlinear_arith)
                requires
                    0 <= b < w,
                    0 <= a < h,
                    i == a * w + b,
            ;
            assert(cells[i] == c);
        }
        if cells.contains(c) {
            let i = choose|i: int| 0 <= i < cells.len() && cells[i] == c;
            assert(r.covers(cells[i]));
        }
    }
    assert forall|i: int, j: int| 0 <= i < cells.len() && 0 <= j < cells.len() && i != j implies cells[i] != cells[j] by {
        if i < j {
            assert(strictly_before(cells[i], cells[j]));
        } else {
            assert(strictly_before(cells[j], cells[i]));
        }
    }
}

/// Letters with the small ones made capitals.
pub open spec fn capitals(s: Seq<char>) -> Seq<char> {
    s.map_values(|c: char| crate::value::ascii_upper(c))
}

proof fn lemma_capitals(s: Seq<char>)
    requires
        forall|i: int| 0 <= i < s.len() ==> is_ascii_alpha(#[trigger] s[i]),
    ensures
        forall|i: int| 0 <= i < s.len() ==> is_ascii_upper(#[trigger] capitals(s)[i]),
        letters_value(capitals(s)) == letters_value(s),
    decreases s.len(),
{
    if s.len() > 0 {
        let init = s.drop_last();
        assert forall|i: int| 0 <= i < init.len() implies is_ascii_alpha(#[trigger] init[i]) by {
            assert(init[i] == s[i]);
        }
        lemma_capitals(init);
        assert(capitals(s).drop_last() =~= capitals(init));
        assert forall|i: int| 0 <= i < s.len() implies is_ascii_upper(#[trigger] capitals(s)[i]) by {
            assert(is_ascii_alpha(s[i]));
        }
        let last = s.last();
        assert(is_ascii_alpha(last));
        assert(letter_index(capitals(s).last()) == letter_index(last));
    }
}

/// Letters name a column exactly when they are one to three ASCII letters,
/// in either case, that spell in capitals the label of a column inside the
/// grid; that column is the one they name.
pub proof fn lemma_column_letters_exactly(s: Seq<char>, c: u32)
    ensures
        column_of_letters(s) == Some(c) <==> {
            &&& 1 <= s.len() <= 3
            &&& forall|i: int| 0 <= i < s.len() ==> is_ascii_alpha(#[trigger] s[i])
            &&& c <= MAX_COL
            &&& column_label_text(c) == capitals(s)
        },
{
    if 1 <= s.len() <= 3 && forall|i: int| 0 <= i < s.len() ==> is_ascii_alpha(#[trigger] s[i]) {
        lemma_capitals(s);
        let u = capitals(s);
        lemma_letters_unique(u);
        assert(letters_value(s) >= 1);
        if column_of_letters(s) == Some(c) {
            lemma_label_shape(c);
        }
        if c <= MAX_COL && column_label_text(c) == u {
            lemma_label_shape(c);
            lemma_bijective_value((c + 1) as nat);
        }
    }
}

// ---------------------------------------------------------------------------
// Parsing `A1` references.

/// The end of the run of letters starting at `i`.
pub open spec fn letters_end(s: Seq<char>, i: nat) -> nat
    decreases s.len() - i,
{
    if i < s.len() && is_ascii_alpha(s[i as int]) {
        letters_end(s, i + 1)
    } else {
        i
    }
}

/// The end of the run of digits starting at `i`.
pub open spec fn digits_end(s: Seq<char>, i: nat) -> nat
    decreases s.len() - i,
{
    if i < s.len() && is_ascii_digit(s[i as int]) {
        digits_end(s, i + 1)
    } else {
        i
    }
}

/// What `A1Ref::parse` makes of some text: an optional `$`, the column
/// letters, an optional `$`, the row digits, and nothing else.
///
/// The column letters are judged before the digits are looked at, so `XFE`
/// on its own is out of range rather than malformed.
pub open spec fn parse_a1(s: Seq<char>) -> Result<A1Ref, ParseRefError> {
    let col_absolute = s.len() > 0 && s[0] == '$';
    let letters_start: nat = if col_absolute { 1 } else { 0 };
    let letters_stop = letters_end(s, letters_start);
    if letters_stop == letters_start {
        Err(ParseRefError::Malformed)
    } else {
        match column_of_letters(s.subrange(letters_start as int, letters_stop as int)) {
            None => Err(ParseRefError::ColumnRange),
            Some(col) => {
                let row_absolute = letters_stop < s.len() && s[letters_stop as int] == '$';
                let digits_start: nat = if row_absolute { letters_stop + 1 } else { letters_stop };
                let digits_stop = digits_end(s, digits_start);
                if digits_stop == digits_start || digits_stop != s.len() {
                    Err(ParseRefError::Malformed)
                } else {
                    let one_based = digits_value(s.subrange(digits_start as int, digits_stop as int));
                    if one_based == 0 || one_based > MAX_ROW + 1 {
                        Err(ParseRefError::RowRange)
                    } else {
                        Ok(
                            A1Ref {
                                cell: CellRef { row: (one_based - 1) as u32, col },
                                col_absolute,
                                row_absolute,
                            },
                        )
                    }
                }
            },
        }
    }
}

fn take_range(chars: &Vec<char>, from: usize, to: usize) -> (r: Vec<char>)
    requires
        from <= to <= chars@.len(),
    ensures
        r@ == chars@.subrange(from as int, to as int),
{
    let mut out: Vec<char> = Vec::new();
    let mut i = from;
    while i < to
        invariant
            from <= i <= to,
            to <= chars@.len(),
            out@ == chars@.subrange(from as int, i as int),
        decreases to - i,
    {
        out.push(chars[i]);
        i = i + 1;
        assert(out@ =~= chars@.subrange(from as int, i as int));
    }
    out
}

pub(crate) fn parse_a1_chars(s: &Vec<char>) -> (r: Result<A1Ref, ParseRefError>)
    ensures
        r == parse_a1(s@),
{
    let mut at: usize = 0;
    let col_absolute = s.len() > 0 && s[0] == '$';
    if col_absolute {
        at = 1;
    }
    let letters_start = at;
    while at < s.len() && ascii_alpha(s[at])
        invariant
            letters_start <= at <= s@.len(),
            letters_end(s@, letters_start as nat) == letters_end(s@, at as nat),
        decreases s.len() - at,
    {
        at = at + 1;
    }
    if at == letters_start {
        return Err(ParseRefError::Malformed);
    }
    let letters = take_range(s, letters_start, at);
    let col = match column_of_chars(&letters) {
        Some(c) => c,
        None => {
            return Err(ParseRefError::ColumnRange);
        },
    };
    let row_absolute = at < s.len() && s[at] == '$';
    if row_absolute {
        at = at + 1;
    }
    let digits_start = at;
    let mut value: u64 = 0;
    while at < s.len() && ascii_digit(s[at])
        invariant
            digits_start <= at <= s@.len(),
            digits_end(s@, digits_start as nat) == digits_end(s@, at as nat),
            forall|j: int| digits_start <= j < at ==> is_ascii_digit(#[trigger] s@[j]),
            digits_value(s@.subrange(digits_start as int, at as int)) <= MAX_ROW + 1 ==> value
                == digits_value(s@.subrange(digits_start as int, at as int)),
            digits_value(s@.subrange(digits_start as int, at as int)) > MAX_ROW + 1 ==> value
                > MAX_ROW + 1,
            value <= (MAX_ROW + 1) * 10 + 9,
        decreases s.len() - at,
    {
        let d = (s[at] as u32 - 48) as u64;
        let ghost before = s@.subrange(digits_start as int, at as int);
        assert(s@.subrange(digits_start as int, at + 1).drop_last() =~= before);
        if value <= MAX_ROW as u64 + 1 {
            value = value * 10 + d;
        }
        at = at + 1;
    }
    if at == digits_start || at != s.len() {
        return Err(ParseRefError::Malformed);
    }
    if value == 0 || value > MAX_ROW as u64 + 1 {
        return Err(ParseRefError::RowRange);
    }
    Ok(A1Ref { cell: CellRef { row: (value - 1) as u32, col }, col_absolute, row_absolute })
}

// ---------------------------------------------------------------------------
// Laws.

proof fn lemma_letters_end_at(s: Seq<char>, i: nat, j: nat)
    requires
        i <= j <= s.len(),
        forall|k: int| i <= k < j ==> is_ascii_alpha(#[trigger] s[k]),
        j == s.len() || !is_ascii_alpha(s[j as int]),
    ensures
        letters_end(s, i) == j,
    decreases j - i,
{
    if i < j {
        lemma_letters_end_at(s, i + 1, j);
    }
}

proof fn lemma_digits_end_at(s: Seq<char>, i: nat, j: nat)
    requires
        i <= j <= s.len(),
        forall|k: int| i <= k < j ==> is_ascii_digit(#[trigger] s[k]),
        j == s.len() || !is_ascii_digit(s[j as int]),
    ensures
        digits_end(s, i) == j,
    decreases j - i,
{
    if i < j {
        lemma_digits_end_at(s, i + 1, j);
    }
}

/// A reference inside the grid, written out and read back, is itself: the
/// cell and both `$` markers survive.
pub proof fn lemma_a1_round_trip(r: A1Ref)
    requires
        r.cell.in_grid(),
    ensures
        parse_a1(r.a1_text()) == Ok::<A1Ref, ParseRefError>(r),
{
    let s = r.a1_text();
    let label = column_label_text(r.cell.col);
    let digits = decimal((r.cell.row + 1) as nat);
    let p1: Seq<char> = if r.col_absolute { seq!['$'] } else { Seq::empty() };
    let p2: Seq<char> = if r.row_absolute { seq!['$'] } else { Seq::empty() };
    lemma_label_shape(r.cell.col);
    lemma_column_label_round_trip(r.cell.col);
    lemma_decimal_shape((r.cell.row + 1) as nat);
    let ls: nat = p1.len();
    let le: nat = ls + label.len();
    let ds: nat = le + p2.len();
    assert(s =~= p1 + label + p2 + digits);
    assert forall|k: int| ls <= k < le implies is_ascii_alpha(#[trigger] s[k]) by {
        assert(s[k] == label[k - ls]);
        assert(is_ascii_upper(label[k - ls]));
    }
    assert(le < s.len());
    assert(!is_ascii_alpha(s[le as int])) by {
        if r.row_absolute {
            assert(s[le as int] == '$');
        } else {
            assert(s[le as int] == digits[0]);
            assert(is_ascii_digit(digits[0]));
        }
    }
    lemma_letters_end_at(s, ls, le);
    assert(s.subrange(ls as int, le as int) =~= label);
    assert forall|k: int| ds <= k < s.len() implies is_ascii_digit(#[trigger] s[k]) by {
        assert(s[k] == digits[k - ds]);
    }
    lemma_digits_end_at(s, ds, s.len());
    assert(s.subrange(ds as int, s.len() as int) =~= digits);
    if r.col_absolute {
        assert(s[0] == '$');
    } else {
        assert(s[0] == label[0]);
        assert(is_ascii_upper(label[0]));
    }
}

} // verus!
