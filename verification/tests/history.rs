use ferrum::coord::{CellAddr, CellRef, SheetId};
use ferrum::history::{History, DEPTH};

const SHEET: SheetId = SheetId(0);

type Book = History<String, f64>;

fn at(row: u32, col: u32) -> CellAddr {
    CellAddr::new(SHEET, CellRef::new(row, col))
}

fn literal(text: &str) -> Option<String> {
    Some(text.to_string())
}

#[test]
fn a_lone_edit_is_its_own_step() {
    let mut history = Book::new();
    history.record_cell(at(0, 0), None, literal("1"));
    assert_eq!(history.undo_depth(), 1);
    assert!(history.can_undo());
    assert_eq!(history.undo_label(), Some("edit"));
}

#[test]
fn a_bracketed_gesture_is_one_step_however_many_edits() {
    let mut history = Book::new();
    history.begin("paste");
    for row in 0..50 {
        history.record_cell(at(row, 0), None, literal("1"));
    }
    history.end();
    assert_eq!(history.undo_depth(), 1);
    assert_eq!(history.undo_label(), Some("paste"));
}

#[test]
fn touching_one_cell_twice_keeps_the_state_before_the_gesture() {
    let mut history = Book::new();
    history.begin("drag");
    history.record_cell(at(0, 0), literal("original"), literal("first"));
    history.record_cell(at(0, 0), literal("first"), literal("second"));
    history.end();

    let change = history.take_undo().unwrap();
    assert_eq!(change.cells.len(), 1);
    assert_eq!(change.cells[0].before.as_deref(), Some("original"));
    assert_eq!(change.cells[0].after.as_deref(), Some("second"));
}

#[test]
fn a_resize_drag_collapses_to_one_step() {
    let mut history = Book::new();
    history.begin("resize column");
    for width in 1..100 {
        history.record_size(SHEET, 3, true, Some(48.0), Some(f64::from(width)));
    }
    history.end();

    assert_eq!(history.undo_depth(), 1);
    let change = history.take_undo().unwrap();
    assert_eq!(change.sizes.len(), 1);
    assert_eq!(change.sizes[0].before, Some(48.0));
    assert_eq!(change.sizes[0].after, Some(99.0));
}

#[test]
fn a_gesture_that_changed_nothing_is_not_recorded() {
    let mut history = Book::new();
    history.begin("nothing happened");
    history.end();
    assert!(!history.can_undo());
}

#[test]
fn nested_gestures_produce_one_step() {
    let mut history = Book::new();
    history.begin("outer");
    history.begin("inner");
    history.record_cell(at(0, 0), None, literal("1"));
    history.end();
    history.record_cell(at(1, 0), None, literal("2"));
    history.end();

    assert_eq!(history.undo_depth(), 1);
    assert_eq!(history.undo_label(), Some("outer"));
}

#[test]
fn edits_made_while_replaying_are_not_recorded() {
    let mut history = Book::new();
    history.record_cell(at(0, 0), None, literal("1"));
    let change = history.take_undo().unwrap();
    assert!(history.is_replaying());

    history.record_cell(at(0, 0), literal("1"), None);
    history.finish_undo(change);

    assert!(!history.can_undo());
    assert!(history.can_redo());
}

#[test]
fn undo_and_redo_move_between_the_stacks() {
    let mut history = Book::new();
    history.record_cell(at(0, 0), None, literal("1"));
    history.record_cell(at(1, 0), None, literal("2"));
    assert_eq!(history.undo_depth(), 2);

    let change = history.take_undo().unwrap();
    history.finish_undo(change);
    assert_eq!(history.undo_depth(), 1);
    assert_eq!(history.redo_depth(), 1);

    let change = history.take_redo().unwrap();
    history.finish_redo(change);
    assert_eq!(history.undo_depth(), 2);
    assert_eq!(history.redo_depth(), 0);
}

#[test]
fn a_new_edit_discards_the_redo_stack() {
    let mut history = Book::new();
    history.record_cell(at(0, 0), None, literal("1"));
    let change = history.take_undo().unwrap();
    history.finish_undo(change);
    assert!(history.can_redo());

    history.record_cell(at(5, 5), None, literal("new"));
    assert!(!history.can_redo(), "the old future is unreachable now");
}

#[test]
fn the_stack_is_bounded() {
    let mut history = Book::new();
    for row in 0..(DEPTH as u32 + 50) {
        history.record_cell(at(row, 0), None, literal("1"));
    }
    assert_eq!(history.undo_depth(), DEPTH);
    // The oldest went first: the newest is still on top.
    let change = history.take_undo().unwrap();
    assert_eq!(change.cells[0].addr, at(DEPTH as u32 + 49, 0));
}

#[test]
fn clearing_forgets_everything() {
    let mut history = Book::new();
    history.record_cell(at(0, 0), None, literal("1"));
    history.clear();
    assert!(!history.can_undo());
    assert!(!history.can_redo());
}

#[test]
fn an_undo_then_a_redo_gives_back_the_same_gesture() {
    let mut history = Book::new();
    history.record_cell(at(2, 3), literal("a"), literal("b"));
    assert_eq!(history.redo_label(), None);
    let change = history.take_undo().unwrap();
    history.finish_undo(change);
    assert_eq!(history.redo_label(), Some("edit"));
    let again = history.take_redo().unwrap();
    assert_eq!(again.cells[0].addr, at(2, 3));
    assert_eq!(again.cells[0].before.as_deref(), Some("a"));
    assert_eq!(again.cells[0].after.as_deref(), Some("b"));
    history.finish_redo(again);
    assert_eq!(history.undo_depth(), 1);
    assert!(!history.is_replaying());
}

#[test]
fn a_resize_outside_a_gesture_is_labelled_by_its_axis() {
    let mut history = Book::new();
    history.record_size(SHEET, 0, false, None, Some(20.0));
    assert_eq!(history.undo_label(), Some("resize row"));
    history.record_size(SHEET, 0, true, None, Some(20.0));
    assert_eq!(history.undo_label(), Some("resize column"));
    assert!(history.take_undo().is_some());
    assert!(history.take_undo().is_some());
    assert!(history.take_undo().is_none());
}
