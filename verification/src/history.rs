//! Undo and redo.
//!
//! The rule this is built around: **one undo gives back one gesture.** A drag
//! that resizes a column fires a hundred size changes and is one step. A paste
//! over fifty cells is one step. Typing in a cell is one step. Nothing the
//! machine did on its own account, such as recalculating a dependent formula,
//! appears in the chain at all, because the user did not do it and cannot
//! predict it.
//!
//! A gesture is bracketed by [`History::begin`] and [`History::end`]. Anything
//! recorded outside a bracket is a step of its own, which is the right answer
//! for a single keystroke and means a caller cannot forget to open one.
//!
//! What a cell held (`I`) and what size a row or column had (`S`) are carried
//! through untouched: the history decides only which edits belong together.

use vstd::prelude::*;

use crate::coord::{CellAddr, SheetId};

verus! {

broadcast use vstd::string::group_string_axioms;

/// How many gestures are kept. Beyond this the oldest is forgotten.
///
/// Each step holds only the cells it touched, so a long session of single-cell
/// edits costs little; a hundred is well past what anyone reaches back through.
pub const DEPTH: usize = 100;

/// One cell, before and after. `None` means the cell was empty.
#[derive(Clone, Debug)]
pub struct CellEdit<I> {
    pub addr: CellAddr,
    pub before: Option<I>,
    pub after: Option<I>,
}

/// One row height or column width, before and after. `None` means it had no
/// size of its own and used the default.
#[derive(Clone, Debug)]
pub struct SizeEdit<S> {
    pub sheet: SheetId,
    pub index: u32,
    pub is_column: bool,
    pub before: Option<S>,
    pub after: Option<S>,
}

/// Everything one gesture changed.
#[derive(Clone, Debug)]
pub struct Change<I, S> {
    /// What the gesture was, for an "Undo typing" label.
    pub label: String,
    pub cells: Vec<CellEdit<I>>,
    pub sizes: Vec<SizeEdit<S>>,
}

/// The first edit of a cell at or after `i`.
pub open spec fn cell_from<I>(cells: Seq<CellEdit<I>>, addr: CellAddr, i: int) -> Option<int>
    decreases cells.len() - i,
{
    if i < 0 || i >= cells.len() {
        None
    } else if cells[i].addr == addr {
        Some(i)
    } else {
        cell_from(cells, addr, i + 1)
    }
}

/// Whether a size edit is of this row or column.
pub open spec fn same_line<S>(e: SizeEdit<S>, sheet: SheetId, index: u32, is_column: bool) -> bool {
    e.sheet == sheet && e.index == index && e.is_column == is_column
}

/// The first edit of a row's or column's size at or after `i`.
pub open spec fn size_from<S>(sizes: Seq<SizeEdit<S>>, sheet: SheetId, index: u32, is_column: bool, i: int) -> Option<int>
    decreases sizes.len() - i,
{
    if i < 0 || i >= sizes.len() {
        None
    } else if same_line(sizes[i], sheet, index, is_column) {
        Some(i)
    } else {
        size_from(sizes, sheet, index, is_column, i + 1)
    }
}

/// The cell edits after one more is noted: a cell already touched keeps its
/// earliest `before` and takes the latest `after`; a new one goes on the end.
pub open spec fn with_cell<I>(cells: Seq<CellEdit<I>>, addr: CellAddr, before: Option<I>, after: Option<I>) -> Seq<CellEdit<I>> {
    match cell_from(cells, addr, 0) {
        Some(i) => cells.update(i, CellEdit { addr, before: cells[i].before, after }),
        None => cells.push(CellEdit { addr, before, after }),
    }
}

/// The size edits after one more is noted, in the same way.
pub open spec fn with_size<S>(
    sizes: Seq<SizeEdit<S>>,
    sheet: SheetId,
    index: u32,
    is_column: bool,
    before: Option<S>,
    after: Option<S>,
) -> Seq<SizeEdit<S>> {
    match size_from(sizes, sheet, index, is_column, 0) {
        Some(i) => sizes.update(i, SizeEdit { sheet, index, is_column, before: sizes[i].before, after }),
        None => sizes.push(SizeEdit { sheet, index, is_column, before, after }),
    }
}

proof fn lemma_cell_from_bounds<I>(cells: Seq<CellEdit<I>>, addr: CellAddr, i: int)
    ensures
        cell_from(cells, addr, i) matches Some(k) ==> 0 <= i <= k < cells.len() && cells[k].addr == addr,
        cell_from(cells, addr, i) is None ==> forall|k: int| 0 <= i <= k < cells.len() ==> cells[k].addr != addr,
    decreases cells.len() - i,
{
    if 0 <= i < cells.len() && cells[i].addr != addr {
        lemma_cell_from_bounds(cells, addr, i + 1);
    }
}

proof fn lemma_size_from_bounds<S>(sizes: Seq<SizeEdit<S>>, sheet: SheetId, index: u32, is_column: bool, i: int)
    ensures
        size_from(sizes, sheet, index, is_column, i) matches Some(k) ==> 0 <= i <= k < sizes.len()
            && same_line(sizes[k], sheet, index, is_column),
        size_from(sizes, sheet, index, is_column, i) is None ==> forall|k: int|
            0 <= i <= k < sizes.len() ==> !same_line(#[trigger] sizes[k], sheet, index, is_column),
    decreases sizes.len() - i,
{
    if 0 <= i < sizes.len() && !same_line(sizes[i], sheet, index, is_column) {
        lemma_size_from_bounds(sizes, sheet, index, is_column, i + 1);
    }
}

impl<I, S> Change<I, S> {
    /// A gesture that has changed nothing yet.
    pub fn new(label: &str) -> (c: Self)
        ensures
            c.label@ == label@,
            c.cells@.len() == 0,
            c.sizes@.len() == 0,
    {
        Change { label: String::from_str(label), cells: Vec::new(), sizes: Vec::new() }
    }

    pub fn is_empty(&self) -> (b: bool)
        ensures
            b == (self.cells@.len() == 0 && self.sizes@.len() == 0),
    {
        self.cells.len() == 0 && self.sizes.len() == 0
    }

    /// Record a cell changing.
    ///
    /// When the same cell is touched twice in one gesture the earliest
    /// `before` and the latest `after` are kept, so undo returns to the state
    /// before the gesture began rather than to somewhere in the middle of it.
    pub fn record_cell(&mut self, addr: CellAddr, before: Option<I>, after: Option<I>)
        ensures
            final(self).cells@ == with_cell(old(self).cells@, addr, before, after),
            final(self).sizes@ == old(self).sizes@,
            final(self).label == old(self).label,
    {
        let mut i: usize = 0;
        while i < self.cells.len()
            invariant
                i <= self.cells@.len(),
                self.cells@ == old(self).cells@,
                self.sizes@ == old(self).sizes@,
                self.label == old(self).label,
                cell_from(self.cells@, addr, 0) == cell_from(self.cells@, addr, i as int),
            decreases self.cells.len() - i,
        {
            if self.cells[i].addr == addr {
                let existing = self.cells.remove(i);
                let ghost taken = self.cells@;
                self.cells.insert(i, CellEdit { addr, before: existing.before, after });
                proof {
                    assert(self.cells@ =~= old(self).cells@.update(
                        i as int,
                        CellEdit { addr, before: old(self).cells@[i as int].before, after },
                    ));
                }
                return;
            }
            i = i + 1;
        }
        self.cells.push(CellEdit { addr, before, after });
    }

    /// Record a row height or column width changing, in the same way.
    pub fn record_size(&mut self, sheet: SheetId, index: u32, is_column: bool, before: Option<S>, after: Option<S>)
        ensures
            final(self).sizes@ == with_size(old(self).sizes@, sheet, index, is_column, before, after),
            final(self).cells@ == old(self).cells@,
            final(self).label == old(self).label,
    {
        let mut i: usize = 0;
        while i < self.sizes.len()
            invariant
                i <= self.sizes@.len(),
                self.cells@ == old(self).cells@,
                self.sizes@ == old(self).sizes@,
                self.label == old(self).label,
                size_from(self.sizes@, sheet, index, is_column, 0) == size_from(
                    self.sizes@,
                    sheet,
                    index,
                    is_column,
                    i as int,
                ),
            decreases self.sizes.len() - i,
        {
            let found = {
                let e = &self.sizes[i];
                e.sheet == sheet && e.index == index && e.is_column == is_column
            };
            if found {
                let existing = self.sizes.remove(i);
                self.sizes.insert(i, SizeEdit { sheet, index, is_column, before: existing.before, after });
                proof {
                    assert(self.sizes@ =~= old(self).sizes@.update(
                        i as int,
                        SizeEdit { sheet, index, is_column, before: old(self).sizes@[i as int].before, after },
                    ));
                }
                return;
            }
            i = i + 1;
        }
        self.sizes.push(SizeEdit { sheet, index, is_column, before, after });
    }
}

/// The past after one more gesture is pushed onto it: the oldest is
/// forgotten once there are more than [`DEPTH`].
pub open spec fn pushed<C>(past: Seq<C>, c: C) -> Seq<C> {
    if past.len() + 1 > DEPTH {
        past.push(c).drop_first()
    } else {
        past.push(c)
    }
}

/// The undo and redo stacks.
pub struct History<I, S> {
    past: Vec<Change<I, S>>,
    future: Vec<Change<I, S>>,
    /// The gesture currently being collected, if one is open.
    open: Option<Change<I, S>>,
    /// How many times `begin` has been called without a matching `end`.
    ///
    /// Nesting is counted rather than refused, so a routine that brackets its
    /// own work can be called from inside a larger gesture and still produce
    /// one step.
    depth: u32,
    /// Set while an undo or a redo is being applied, so the edits it makes are
    /// not recorded as new history.
    replaying: bool,
}

impl<I, S> History<I, S> {
    /// The gestures that can be undone, oldest first.
    pub closed spec fn past(&self) -> Seq<Change<I, S>> {
        self.past@
    }

    /// The gestures that can be redone, the next one last.
    pub closed spec fn future(&self) -> Seq<Change<I, S>> {
        self.future@
    }

    /// The gesture being collected, if one is open.
    pub closed spec fn open(&self) -> Option<Change<I, S>> {
        self.open
    }

    /// How deeply gestures are nested.
    pub closed spec fn depth(&self) -> nat {
        self.depth as nat
    }

    /// Whether an undo or a redo is being applied.
    pub closed spec fn replaying(&self) -> bool {
        self.replaying
    }

    /// The gestures kept on both stacks together are at most [`DEPTH`], so
    /// no more than that can be undone.
    pub open spec fn within_depth(&self) -> bool {
        self.past().len() + self.future().len() <= DEPTH
    }

    pub fn new() -> (h: Self)
        ensures
            h.past().len() == 0,
            h.future().len() == 0,
            h.open() is None,
            h.depth() == 0,
            !h.replaying(),
            h.within_depth(),
    {
        History { past: Vec::new(), future: Vec::new(), open: None, depth: 0, replaying: false }
    }

    /// Open a gesture. Everything recorded until the matching [`Self::end`] is
    /// one undo step.
    pub fn begin(&mut self, label: &str)
        requires
            old(self).depth() < u32::MAX,
        ensures
            old(self).within_depth() ==> final(self).within_depth(),
            final(self).depth() == old(self).depth() + 1,
            old(self).depth() == 0 ==> (final(self).open() matches Some(c) && c.label@ == label@
                && c.cells@.len() == 0 && c.sizes@.len() == 0),
            old(self).depth() > 0 ==> final(self).open() == old(self).open(),
            final(self).past() == old(self).past(),
            final(self).future() == old(self).future(),
            final(self).replaying() == old(self).replaying(),
    {
        if self.depth == 0 {
            self.open = Some(Change::new(label));
        }
        self.depth = self.depth + 1;
    }

    fn push(&mut self, change: Change<I, S>)
        ensures
            old(self).past().len() <= DEPTH ==> final(self).past().len() <= DEPTH,
            final(self).past() == pushed(old(self).past(), change),
            final(self).future().len() == 0,
            final(self).open() == old(self).open(),
            final(self).depth() == old(self).depth(),
            final(self).replaying() == old(self).replaying(),
    {
        self.past.push(change);
        if self.past.len() > DEPTH {
            let _forgotten = self.past.remove(0);
        }
        self.future.clear();
    }

    /// Close a gesture and push it, unless it changed nothing.
    pub fn end(&mut self)
        ensures
            old(self).within_depth() ==> final(self).within_depth(),
            final(self).depth() == if old(self).depth() > 0 { old(self).depth() - 1 } else { 0 },
            final(self).replaying() == old(self).replaying(),
            final(self).depth() > 0 ==> final(self).past() == old(self).past() && final(self).future()
                == old(self).future() && final(self).open() == old(self).open(),
            final(self).depth() == 0 ==> final(self).open() is None,
            final(self).depth() == 0 ==> match old(self).open() {
                Some(c) => if c.cells@.len() == 0 && c.sizes@.len() == 0 {
                    final(self).past() == old(self).past() && final(self).future() == old(self).future()
                } else {
                    final(self).past() == pushed(old(self).past(), c) && final(self).future().len() == 0
                },
                None => final(self).past() == old(self).past()
                    && final(self).future() == old(self).future(),
            },
    {
        if self.depth > 0 {
            self.depth = self.depth - 1;
        }
        if self.depth > 0 {
            return;
        }
        match self.open.take() {
            Some(change) => {
                if !change.is_empty() {
                    self.push(change);
                }
            },
            None => {},
        }
    }

    pub fn is_replaying(&self) -> (b: bool)
        ensures
            b == self.replaying(),
    {
        self.replaying
    }

    /// Note a cell changing. Ignored while an undo is being applied.
    ///
    /// Inside a gesture the edit joins it; outside one it is a step of its
    /// own, labelled `edit`.
    pub fn record_cell(&mut self, addr: CellAddr, before: Option<I>, after: Option<I>)
        ensures
            old(self).within_depth() ==> final(self).within_depth(),
            final(self).depth() == old(self).depth(),
            final(self).replaying() == old(self).replaying(),
            old(self).replaying() ==> *final(self) == *old(self),
            !old(self).replaying() && old(self).open() is Some ==> ({
                let c = old(self).open()->Some_0;
                &&& final(self).past() == old(self).past()
                &&& final(self).future() == old(self).future()
                &&& final(self).open() matches Some(d)
                &&& d.label == c.label
                &&& d.cells@ == with_cell(c.cells@, addr, before, after)
                &&& d.sizes@ == c.sizes@
            }),
            !old(self).replaying() && old(self).open() is None ==> ({
                let last = final(self).past().last();
                &&& final(self).open() is None
                &&& final(self).future().len() == 0
                &&& final(self).past().len() > 0
                &&& final(self).past() == pushed(old(self).past(), last)
                &&& last.label@ == "edit"@
                &&& last.cells@ == seq![CellEdit { addr, before, after }]
                &&& last.sizes@.len() == 0
            }),
    {
        if self.replaying {
            return;
        }
        match self.open.take() {
            Some(mut change) => {
                change.record_cell(addr, before, after);
                self.open = Some(change);
            },
            None => {
                // Outside a gesture, one edit is one step.
                let mut change = Change::new("edit");
                change.record_cell(addr, before, after);
                proof {
                    assert(cell_from(Seq::<CellEdit<I>>::empty(), addr, 0) is None);
                }
                self.push(change);
            },
        }
    }

    /// Note a row height or column width changing. Ignored while an undo is
    /// being applied.
    ///
    /// Inside a gesture the edit joins it; outside one it is a step of its
    /// own, labelled `resize column` or `resize row`.
    pub fn record_size(&mut self, sheet: SheetId, index: u32, is_column: bool, before: Option<S>, after: Option<S>)
        ensures
            old(self).within_depth() ==> final(self).within_depth(),
            final(self).depth() == old(self).depth(),
            final(self).replaying() == old(self).replaying(),
            old(self).replaying() ==> *final(self) == *old(self),
            !old(self).replaying() && old(self).open() is Some ==> ({
                let c = old(self).open()->Some_0;
                &&& final(self).past() == old(self).past()
                &&& final(self).future() == old(self).future()
                &&& final(self).open() matches Some(d)
                &&& d.label == c.label
                &&& d.sizes@ == with_size(c.sizes@, sheet, index, is_column, before, after)
                &&& d.cells@ == c.cells@
            }),
            !old(self).replaying() && old(self).open() is None ==> ({
                let last = final(self).past().last();
                &&& final(self).open() is None
                &&& final(self).future().len() == 0
                &&& final(self).past().len() > 0
                &&& final(self).past() == pushed(old(self).past(), last)
                &&& last.label@ == (if is_column {
                    "resize column"@
                } else {
                    "resize row"@
                })
                &&& last.sizes@ == seq![SizeEdit { sheet, index, is_column, before, after }]
                &&& last.cells@.len() == 0
            }),
    {
        if self.replaying {
            return;
        }
        match self.open.take() {
            Some(mut change) => {
                change.record_size(sheet, index, is_column, before, after);
                self.open = Some(change);
            },
            None => {
                let label = if is_column {
                    "resize column"
                } else {
                    "resize row"
                };
                let mut change = Change::new(label);
                change.record_size(sheet, index, is_column, before, after);
                proof {
                    assert(size_from(Seq::<SizeEdit<S>>::empty(), sheet, index, is_column, 0) is None);
                }
                self.push(change);
            },
        }
    }

    pub fn can_undo(&self) -> (b: bool)
        ensures
            b == (self.past().len() > 0),
    {
        self.past.len() > 0
    }

    pub fn can_redo(&self) -> (b: bool)
        ensures
            b == (self.future().len() > 0),
    {
        self.future.len() > 0
    }

    /// What the next undo would take back.
    pub fn undo_label(&self) -> (r: Option<&str>)
        ensures
            self.past().len() == 0 ==> r is None,
            self.past().len() > 0 ==> (r matches Some(l) && l@ == self.past().last().label@),
    {
        let n = self.past.len();
        if n == 0 {
            None
        } else {
            Some(self.past[n - 1].label.as_str())
        }
    }

    /// What the next redo would bring back.
    pub fn redo_label(&self) -> (r: Option<&str>)
        ensures
            self.future().len() == 0 ==> r is None,
            self.future().len() > 0 ==> (r matches Some(l) && l@ == self.future().last().label@),
    {
        let n = self.future.len();
        if n == 0 {
            None
        } else {
            Some(self.future[n - 1].label.as_str())
        }
    }

    /// Take the next gesture to undo. The caller applies it and then calls
    /// [`Self::finish_undo`].
    pub fn take_undo(&mut self) -> (r: Option<Change<I, S>>)
        ensures
            old(self).within_depth() ==> final(self).within_depth(),
            old(self).past().len() == 0 ==> r is None && final(self).past() == old(self).past()
                && final(self).replaying() == old(self).replaying(),
            old(self).past().len() > 0 ==> r == Some(old(self).past().last()) && final(self).past()
                == old(self).past().drop_last() && final(self).replaying(),
            final(self).future() == old(self).future(),
            final(self).open() == old(self).open(),
            final(self).depth() == old(self).depth(),
    {
        match self.past.pop() {
            Some(change) => {
                self.replaying = true;
                Some(change)
            },
            None => None,
        }
    }

    /// Take the next gesture to redo. The caller applies it and then calls
    /// [`Self::finish_redo`].
    pub fn take_redo(&mut self) -> (r: Option<Change<I, S>>)
        ensures
            old(self).within_depth() ==> final(self).within_depth(),
            old(self).future().len() == 0 ==> r is None && final(self).future() == old(self).future()
                && final(self).replaying() == old(self).replaying(),
            old(self).future().len() > 0 ==> r == Some(old(self).future().last())
                && final(self).future() == old(self).future().drop_last() && final(self).replaying(),
            final(self).past() == old(self).past(),
            final(self).open() == old(self).open(),
            final(self).depth() == old(self).depth(),
    {
        match self.future.pop() {
            Some(change) => {
                self.replaying = true;
                Some(change)
            },
            None => None,
        }
    }

    /// Put an undone gesture on the redo stack and start recording again.
    pub fn finish_undo(&mut self, change: Change<I, S>)
        ensures
            old(self).past().len() + old(self).future().len() < DEPTH ==> final(self).within_depth(),
            final(self).future() == old(self).future().push(change),
            !final(self).replaying(),
            final(self).past() == old(self).past(),
            final(self).open() == old(self).open(),
            final(self).depth() == old(self).depth(),
    {
        self.replaying = false;
        self.future.push(change);
    }

    /// Put a redone gesture back on the undo stack and start recording again.
    pub fn finish_redo(&mut self, change: Change<I, S>)
        ensures
            old(self).past().len() + old(self).future().len() < DEPTH ==> final(self).within_depth(),
            final(self).past() == old(self).past().push(change),
            !final(self).replaying(),
            final(self).future() == old(self).future(),
            final(self).open() == old(self).open(),
            final(self).depth() == old(self).depth(),
    {
        self.replaying = false;
        self.past.push(change);
    }

    /// Forget everything, as when a different file is opened.
    pub fn clear(&mut self)
        ensures
            old(self).within_depth() ==> final(self).within_depth(),
            final(self).past().len() == 0,
            final(self).future().len() == 0,
            final(self).open() is None,
            final(self).depth() == 0,
            !final(self).replaying(),
    {
        self.past.clear();
        self.future.clear();
        self.open = None;
        self.depth = 0;
        self.replaying = false;
    }

    pub fn undo_depth(&self) -> (n: usize)
        ensures
            n == self.past().len(),
    {
        self.past.len()
    }

    pub fn redo_depth(&self) -> (n: usize)
        ensures
            n == self.future().len(),
    {
        self.future.len()
    }
}

/// Undoing a gesture and then redoing it leaves both stacks as they were:
/// the undo moves the last of the past onto the future, the redo moves it
/// back.
pub proof fn lemma_undo_then_redo_restores<C>(past: Seq<C>, future: Seq<C>)
    requires
        past.len() > 0,
    ensures
        ({
            let undone = past.last();
            let future_after_undo = future.push(undone);
            let redone = future_after_undo.last();
            &&& redone == undone
            &&& past.drop_last().push(redone) == past
            &&& future_after_undo.drop_last() == future
        }),
{
    assert(past.drop_last().push(past.last()) =~= past);
    assert(future.push(past.last()).drop_last() =~= future);
}

/// However many gestures are pushed, no more than [`DEPTH`] are kept, and
/// the newest is always the last.
pub proof fn lemma_pushed_is_bounded<C>(past: Seq<C>, c: C)
    requires
        past.len() <= DEPTH,
    ensures
        pushed(past, c).len() <= DEPTH,
        pushed(past, c).last() == c,
{
}

/// Touching one cell twice in a gesture keeps a single edit for it, with the
/// `before` from the first touch and the `after` from the second, so undo
/// returns to the state before the gesture began.
pub proof fn lemma_second_touch_keeps_first_before<I>(
    cells: Seq<CellEdit<I>>,
    addr: CellAddr,
    first_before: Option<I>,
    first_after: Option<I>,
    second_before: Option<I>,
    second_after: Option<I>,
)
    requires
        cell_from(cells, addr, 0) is None,
    ensures
        ({
            let once = with_cell(cells, addr, first_before, first_after);
            let twice = with_cell(once, addr, second_before, second_after);
            &&& twice.len() == cells.len() + 1
            &&& twice.last() == CellEdit { addr, before: first_before, after: second_after }
            &&& twice.drop_last() == cells
        }),
{
    let once = with_cell(cells, addr, first_before, first_after);
    lemma_cell_from_bounds(cells, addr, 0);
    assert(once == cells.push(CellEdit { addr, before: first_before, after: first_after }));
    lemma_cell_from_bounds(once, addr, 0);
    assert(once[cells.len() as int].addr == addr);
    assert(cell_from(once, addr, 0) is Some);
    let k = cell_from(once, addr, 0)->Some_0;
    assert(k == cells.len()) by {
        if k < cells.len() {
            assert(once[k] == cells[k]);
            assert(cells[k].addr != addr);
        }
    }
    let twice = with_cell(once, addr, second_before, second_after);
    assert(twice.drop_last() =~= cells);
}

} // verus!
