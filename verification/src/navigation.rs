//! Moving around the grid with the keyboard: where the active cell and the
//! selection go, and what each key asks the application to do.
//!
//! The selection is two corners: the anchor, which is the active cell, and
//! the cursor, the corner that moves when the selection is extended.

use vstd::prelude::*;
use vstd::math::{max, min};

use crate::coord::{CellRef, RangeRef, MAX_COL, MAX_ROW};
use crate::interface::Key;
use crate::text::{decimal, push_decimal, push_str};

verus! {

broadcast use vstd::string::group_string_axioms;

/// The selected block, by two opposite corners.
#[derive(Clone, Copy, PartialEq, Eq, Structural, Debug)]
pub struct Selection {
    /// The active cell, where an edit goes.
    pub anchor: CellRef,
    /// The corner that moves when the selection is extended.
    pub cursor: CellRef,
}

/// The sign of a step: -1, 0 or 1.
pub open spec fn sign(v: int) -> int {
    if v < 0 {
        -1
    } else if v == 0 {
        0
    } else {
        1
    }
}

/// The far edge of the populated block in a direction: a step up goes to the
/// top row of the used block (or stays, when already above it), and so on;
/// anything other than one straight direction, or a sheet with nothing in
/// it, stays put.
pub open spec fn jump_spec(from: CellRef, rows: int, cols: int, used: Option<RangeRef>) -> CellRef {
    match used {
        None => from,
        Some(b) => if sign(rows) == -1 && sign(cols) == 0 {
            CellRef { row: min(b.start.row as int, from.row as int) as u32, col: from.col }
        } else if sign(rows) == 1 && sign(cols) == 0 {
            CellRef { row: max(b.end.row as int, from.row as int) as u32, col: from.col }
        } else if sign(rows) == 0 && sign(cols) == -1 {
            CellRef { row: from.row, col: min(b.start.col as int, from.col as int) as u32 }
        } else if sign(rows) == 0 && sign(cols) == 1 {
            CellRef { row: from.row, col: max(b.end.col as int, from.col as int) as u32 }
        } else {
            from
        },
    }
}

/// The far edge of the populated block in a direction.
pub fn jump_target(from: CellRef, rows: i64, cols: i64, used: Option<RangeRef>) -> (r: CellRef)
    ensures
        r == jump_spec(from, rows as int, cols as int, used),
{
    match used {
        None => from,
        Some(b) => {
            if rows < 0 && cols == 0 {
                CellRef::new(if b.start.row < from.row { b.start.row } else { from.row }, from.col)
            } else if rows > 0 && cols == 0 {
                CellRef::new(if b.end.row > from.row { b.end.row } else { from.row }, from.col)
            } else if rows == 0 && cols < 0 {
                CellRef::new(from.row, if b.start.col < from.col { b.start.col } else { from.col })
            } else if rows == 0 && cols > 0 {
                CellRef::new(from.row, if b.end.col > from.col { b.end.col } else { from.col })
            } else {
                from
            }
        },
    }
}

/// Where a selection goes when a cell is picked: extending moves only the
/// cursor; otherwise both corners go to the cell.
pub open spec fn picked(s: Selection, cell: CellRef, extend: bool) -> Selection {
    if extend {
        Selection { anchor: s.anchor, cursor: cell }
    } else {
        Selection { anchor: cell, cursor: cell }
    }
}

/// Where a step lands: from the cursor when extending and the anchor
/// otherwise, by the offset (staying put where that leaves the grid), or to
/// the edge of the used block when jumping.
pub open spec fn step_target(s: Selection, rows: int, cols: int, extend: bool, jump: bool, used: Option<RangeRef>) -> CellRef {
    let from = if extend {
        s.cursor
    } else {
        s.anchor
    };
    if jump {
        jump_spec(from, rows, cols, used)
    } else {
        match from.moved(rows, cols) {
            Some(c) => c,
            None => from,
        }
    }
}

/// Where Home goes: the first column of the active row, or the very first
/// cell when `top`.
pub open spec fn home_target(s: Selection, top: bool) -> CellRef {
    CellRef { row: if top { 0 } else { s.anchor.row }, col: 0 }
}

/// Where End goes: the last used column of the active row, or the last used
/// cell when `corner`; the first cell of a sheet with nothing in it.
pub open spec fn end_target(s: Selection, corner: bool, used: Option<RangeRef>) -> CellRef {
    match used {
        None => CellRef { row: 0, col: 0 },
        Some(b) => if corner {
            b.end
        } else {
            CellRef { row: s.anchor.row, col: b.end.col }
        },
    }
}

/// The text the name box shows for a block: the cell's name for a single
/// cell, its height and width otherwise.
pub open spec fn name_box_text(r: RangeRef) -> Seq<char> {
    if r.start == r.end {
        r.start.a1_text()
    } else {
        decimal((r.end.row - r.start.row + 1) as nat) + " x "@ + decimal(
            (r.end.col - r.start.col + 1) as nat,
        )
    }
}

/// The block two corners span.
pub open spec fn spanned(a: CellRef, b: CellRef) -> RangeRef {
    RangeRef {
        start: CellRef { row: min(a.row as int, b.row as int) as u32, col: min(a.col as int, b.col as int) as u32 },
        end: CellRef { row: max(a.row as int, b.row as int) as u32, col: max(a.col as int, b.col as int) as u32 },
    }
}

impl Selection {
    /// The first cell, selected alone.
    pub fn new() -> (s: Self)
        ensures
            s.anchor == (CellRef { row: 0, col: 0 }),
            s.cursor == (CellRef { row: 0, col: 0 }),
    {
        Selection { anchor: CellRef::new(0, 0), cursor: CellRef::new(0, 0) }
    }

    pub fn active(&self) -> (c: CellRef)
        ensures
            c == self.anchor,
    {
        self.anchor
    }

    /// The block selected.
    pub fn selection(&self) -> (r: RangeRef)
        ensures
            r == spanned(self.anchor, self.cursor),
    {
        RangeRef::new(self.anchor, self.cursor)
    }

    /// Pick a cell, extending the selection to it or moving to it. The cell
    /// to bring into view is the one picked.
    pub fn select(&mut self, cell: CellRef, extend: bool) -> (shown: CellRef)
        ensures
            *final(self) == picked(*old(self), cell, extend),
            shown == cell,
    {
        if extend {
            self.cursor = cell;
        } else {
            self.anchor = cell;
            self.cursor = cell;
        }
        cell
    }

    /// Drag the moving corner to a cell.
    pub fn extend_to(&mut self, cell: CellRef)
        ensures
            final(self).anchor == old(self).anchor,
            final(self).cursor == cell,
    {
        self.cursor = cell;
    }

    /// Every row of one column.
    pub fn select_column(&mut self, col: u32)
        ensures
            final(self).anchor == (CellRef { row: 0, col }),
            final(self).cursor == (CellRef { row: MAX_ROW, col }),
    {
        self.anchor = CellRef::new(0, col);
        self.cursor = CellRef::new(MAX_ROW, col);
    }

    /// Every column of one row.
    pub fn select_row(&mut self, row: u32)
        ensures
            final(self).anchor == (CellRef { row, col: 0 }),
            final(self).cursor == (CellRef { row, col: MAX_COL }),
    {
        self.anchor = CellRef::new(row, 0);
        self.cursor = CellRef::new(row, MAX_COL);
    }

    /// The whole grid.
    pub fn select_all(&mut self)
        ensures
            final(self).anchor == (CellRef { row: 0, col: 0 }),
            final(self).cursor == (CellRef { row: MAX_ROW, col: MAX_COL }),
    {
        self.anchor = CellRef::new(0, 0);
        self.cursor = CellRef::new(MAX_ROW, MAX_COL);
    }

    /// Move the active cell, or the selection's moving corner, by a step or
    /// to the edge of the used block. The cell to bring into view is where
    /// it lands.
    pub fn step(&mut self, rows: i64, cols: i64, extend: bool, jump: bool, used: Option<RangeRef>) -> (shown: CellRef)
        ensures
            shown == step_target(*old(self), rows as int, cols as int, extend, jump, used),
            *final(self) == picked(*old(self), shown, extend),
    {
        let from = if extend {
            self.cursor
        } else {
            self.anchor
        };
        let target = if jump {
            jump_target(from, rows, cols, used)
        } else {
            match from.offset(rows, cols) {
                Some(c) => c,
                None => from,
            }
        };
        self.select(target, extend)
    }

    /// Home: to the first column of the active row, or to the first cell.
    pub fn home(&mut self, top: bool, extend: bool) -> (shown: CellRef)
        ensures
            shown == home_target(*old(self), top),
            *final(self) == picked(*old(self), shown, extend),
    {
        let row = if top {
            0
        } else {
            self.anchor.row
        };
        self.select(CellRef::new(row, 0), extend)
    }

    /// End: to the last used column of the active row, or the last used cell.
    pub fn end(&mut self, corner: bool, extend: bool, used: Option<RangeRef>) -> (shown: CellRef)
        ensures
            shown == end_target(*old(self), corner, used),
            *final(self) == picked(*old(self), shown, extend),
    {
        let target = match used {
            None => CellRef::new(0, 0),
            Some(b) => if corner {
                b.end
            } else {
                CellRef::new(self.anchor.row, b.end.col)
            },
        };
        self.select(target, extend)
    }

    /// What the name box shows: the active cell's name, or the size of the
    /// block as `rows x columns`.
    pub fn name_box(&self) -> (s: String)
        requires
            self.anchor.row < u32::MAX,
            self.anchor.col < u32::MAX,
            self.cursor.row < u32::MAX,
            self.cursor.col < u32::MAX,
        ensures
            s@ == name_box_text(spanned(self.anchor, self.cursor)),
    {
        let r = RangeRef::new(self.anchor, self.cursor);
        if r.start == r.end {
            r.start.to_a1()
        } else {
            let mut s = String::new();
            push_decimal(&mut s, r.height() as u64);
            push_str(&mut s, " x ");
            push_decimal(&mut s, r.width() as u64);
            s
        }
    }
}

/// What a key asks the application to do.
#[derive(Clone, PartialEq, Eq, Debug)]
pub enum Command {
    /// Move by a step, extending the selection or not, jumping to the edge
    /// of the used block or not.
    Step { rows: i64, cols: i64, extend: bool, jump: bool },
    /// Home, to the very first cell when `top`.
    Home { top: bool, extend: bool },
    /// End, to the last used cell when `corner`.
    End { corner: bool, extend: bool },
    /// Empty every cell in the selection.
    Clear,
    /// Open the active cell for editing, typing over it with the text given.
    BeginEdit(Option<String>),
    /// Abandon the edit in progress.
    CancelEdit,
    /// Write the edit in progress, then move by a step.
    CommitThenStep { rows: i64, cols: i64 },
    /// The key is taken and does nothing.
    Nothing,
    /// The key is not the grid's: while editing, it belongs to the text.
    NotMine,
}

/// What a key means, given the modifiers, whether a cell is being edited,
/// and how many rows a page is.
pub open spec fn command_spec(key: Key, ctrl: bool, shift: bool, editing: bool, page: i64) -> Command {
    if editing {
        match key {
            Key::Escape => Command::CancelEdit,
            Key::Enter => Command::CommitThenStep { rows: 1, cols: 0 },
            Key::Tab => Command::CommitThenStep { rows: 0, cols: 1 },
            _ => Command::NotMine,
        }
    } else {
        match key {
            Key::Up => Command::Step { rows: -1i64, cols: 0, extend: shift, jump: ctrl },
            Key::Down => Command::Step { rows: 1, cols: 0, extend: shift, jump: ctrl },
            Key::Left => Command::Step { rows: 0, cols: -1i64, extend: shift, jump: ctrl },
            Key::Right => Command::Step { rows: 0, cols: 1, extend: shift, jump: ctrl },
            Key::PageUp => Command::Step { rows: (-page) as i64, cols: 0, extend: shift, jump: false },
            Key::PageDown => Command::Step { rows: page, cols: 0, extend: shift, jump: false },
            Key::Home => Command::Home { top: ctrl, extend: shift },
            Key::End => Command::End { corner: ctrl, extend: shift },
            Key::Enter => Command::Step { rows: 1, cols: 0, extend: false, jump: false },
            Key::Tab => Command::Step { rows: 0, cols: if shift { -1i64 } else { 1i64 }, extend: false, jump: false },
            Key::Escape => Command::Nothing,
            Key::Delete => Command::Clear,
            Key::Backspace => Command::Clear,
            Key::Edit => Command::BeginEdit(None),
            Key::Typed(text) => Command::BeginEdit(Some(text)),
        }
    }
}

/// What a key asks for. A page is at least one row; `page` is how many rows
/// a page-up or page-down moves.
pub fn command_for(key: Key, ctrl: bool, shift: bool, editing: bool, page: i64) -> (c: Command)
    requires
        page > i64::MIN,
    ensures
        c == command_spec(key, ctrl, shift, editing, page),
{
    if editing {
        return match key {
            Key::Escape => Command::CancelEdit,
            Key::Enter => Command::CommitThenStep { rows: 1, cols: 0 },
            Key::Tab => Command::CommitThenStep { rows: 0, cols: 1 },
            _ => Command::NotMine,
        };
    }
    match key {
        Key::Up => Command::Step { rows: -1, cols: 0, extend: shift, jump: ctrl },
        Key::Down => Command::Step { rows: 1, cols: 0, extend: shift, jump: ctrl },
        Key::Left => Command::Step { rows: 0, cols: -1, extend: shift, jump: ctrl },
        Key::Right => Command::Step { rows: 0, cols: 1, extend: shift, jump: ctrl },
        Key::PageUp => Command::Step { rows: -page, cols: 0, extend: shift, jump: false },
        Key::PageDown => Command::Step { rows: page, cols: 0, extend: shift, jump: false },
        Key::Home => Command::Home { top: ctrl, extend: shift },
        Key::End => Command::End { corner: ctrl, extend: shift },
        Key::Enter => Command::Step { rows: 1, cols: 0, extend: false, jump: false },
        Key::Tab => Command::Step { rows: 0, cols: if shift { -1 } else { 1 }, extend: false, jump: false },
        Key::Escape => Command::Nothing,
        Key::Delete => Command::Clear,
        Key::Backspace => Command::Clear,
        Key::Edit => Command::BeginEdit(None),
        Key::Typed(text) => Command::BeginEdit(Some(text)),
    }
}

/// How many rows a page moves, from how many rows are showing: two fewer,
/// so a little of the old page stays in view, and never less than one.
pub open spec fn page_rows(visible: int) -> int {
    if visible - 2 < 1 {
        1
    } else {
        visible - 2
    }
}

/// How many rows a page moves, given how many rows are showing.
pub fn page_size(visible: usize) -> (p: i64)
    ensures
        p == page_rows(visible as int) || (page_rows(visible as int) > i64::MAX && p == i64::MAX),
{
    if visible < 3 {
        1
    } else if (visible as u64) - 2 > (i64::MAX as u64) {
        i64::MAX
    } else {
        ((visible as u64) - 2) as i64
    }
}

/// The active cell cannot leave the grid: from a selection on the grid,
/// every step, jump, Home and End lands on the grid, as long as the used
/// block is on it.
pub proof fn lemma_moves_stay_on_the_grid(
    s: Selection,
    rows: int,
    cols: int,
    extend: bool,
    jump: bool,
    top: bool,
    corner: bool,
    used: Option<RangeRef>,
)
    requires
        s.anchor.in_grid(),
        s.cursor.in_grid(),
        used matches Some(b) ==> b.start.in_grid() && b.end.in_grid(),
    ensures
        step_target(s, rows, cols, extend, jump, used).in_grid(),
        home_target(s, top).in_grid(),
        end_target(s, corner, used).in_grid(),
{
}

/// Extending never moves the active cell; moving without extending leaves a
/// single cell selected.
pub proof fn lemma_extending_keeps_the_anchor(s: Selection, cell: CellRef)
    ensures
        picked(s, cell, true).anchor == s.anchor,
        picked(s, cell, true).cursor == cell,
        picked(s, cell, false).anchor == cell,
        picked(s, cell, false).cursor == cell,
{
}

} // verus!
