use ferrum::coord::{CellRef, RangeRef, MAX_COL, MAX_ROW};
use ferrum::interface::Key;
use ferrum::navigation::{command_for, jump_target, page_size, Command, Selection};

/// Apply a key to a selection the way the window does when nothing is being
/// edited, for the keys that move it.
fn press(s: &mut Selection, key: Key, ctrl: bool, shift: bool, used: Option<RangeRef>) -> Command {
    let command = command_for(key, ctrl, shift, false, 10);
    match command {
        Command::Step { rows, cols, extend, jump } => {
            s.step(rows, cols, extend, jump, used);
        }
        Command::Home { top, extend } => {
            s.home(top, extend);
        }
        Command::End { corner, extend } => {
            s.end(corner, extend, used);
        }
        _ => {}
    }
    command
}

#[test]
fn arrow_keys_move_the_active_cell_and_the_name_box_follows() {
    let mut s = Selection::new();
    press(&mut s, Key::Down, false, false, None);
    press(&mut s, Key::Right, false, false, None);
    assert_eq!(s.active(), CellRef::new(1, 1));
    assert_eq!(s.name_box(), "B2");
}

#[test]
fn the_active_cell_stays_on_the_grid() {
    let mut s = Selection::new();
    press(&mut s, Key::Up, false, false, None);
    press(&mut s, Key::Left, false, false, None);
    assert_eq!(s.active(), CellRef::new(0, 0));
    s.select(CellRef::new(MAX_ROW, MAX_COL), false);
    press(&mut s, Key::Down, false, false, None);
    press(&mut s, Key::Right, false, false, None);
    assert_eq!(s.active(), CellRef::new(MAX_ROW, MAX_COL));
}

#[test]
fn shift_extends_without_moving_the_anchor() {
    let mut s = Selection::new();
    press(&mut s, Key::Down, false, true, None);
    press(&mut s, Key::Right, false, true, None);
    assert_eq!(s.active(), CellRef::new(0, 0));
    assert_eq!(s.selection().to_a1(), "A1:B2");
}

#[test]
fn the_name_box_gives_the_size_of_a_block() {
    let mut s = Selection::new();
    s.select(CellRef::new(0, 0), false);
    s.select(CellRef::new(2, 1), true);
    assert_eq!(s.name_box(), "3 x 2");
}

#[test]
fn ctrl_with_an_arrow_jumps_to_the_edge_of_the_data() {
    let used = Some(RangeRef::new(CellRef::new(2, 1), CellRef::new(9, 4)));
    let mut s = Selection::new();
    s.select(CellRef::new(5, 2), false);
    press(&mut s, Key::Down, true, false, used);
    assert_eq!(s.active(), CellRef::new(9, 2));
    press(&mut s, Key::Up, true, false, used);
    assert_eq!(s.active(), CellRef::new(2, 2));
    press(&mut s, Key::Right, true, false, used);
    assert_eq!(s.active(), CellRef::new(2, 4));
    press(&mut s, Key::Left, true, false, used);
    assert_eq!(s.active(), CellRef::new(2, 1));
    // Past the data already: stays.
    s.select(CellRef::new(20, 20), false);
    press(&mut s, Key::Down, true, false, used);
    assert_eq!(s.active(), CellRef::new(20, 20));
    // With nothing on the sheet a jump goes nowhere.
    assert_eq!(jump_target(CellRef::new(3, 3), 1, 0, None), CellRef::new(3, 3));
}

#[test]
fn home_and_end_follow_the_row_and_the_data() {
    let used = Some(RangeRef::new(CellRef::new(0, 0), CellRef::new(7, 5)));
    let mut s = Selection::new();
    s.select(CellRef::new(4, 3), false);
    press(&mut s, Key::Home, false, false, used);
    assert_eq!(s.active(), CellRef::new(4, 0));
    press(&mut s, Key::End, false, false, used);
    assert_eq!(s.active(), CellRef::new(4, 5));
    press(&mut s, Key::End, true, false, used);
    assert_eq!(s.active(), CellRef::new(7, 5));
    press(&mut s, Key::Home, true, false, used);
    assert_eq!(s.active(), CellRef::new(0, 0));
    press(&mut s, Key::End, false, false, None);
    assert_eq!(s.active(), CellRef::new(0, 0));
}

#[test]
fn enter_and_tab_move_down_and_across() {
    let mut s = Selection::new();
    press(&mut s, Key::Enter, false, false, None);
    press(&mut s, Key::Tab, false, false, None);
    assert_eq!(s.active(), CellRef::new(1, 1));
    press(&mut s, Key::Tab, false, true, None);
    assert_eq!(s.active(), CellRef::new(1, 0));
}

#[test]
fn page_keys_move_by_a_page() {
    let mut s = Selection::new();
    press(&mut s, Key::PageDown, false, false, None);
    assert_eq!(s.active(), CellRef::new(10, 0));
    press(&mut s, Key::PageUp, false, false, None);
    assert_eq!(s.active(), CellRef::new(0, 0));
    assert_eq!(page_size(30), 28);
    assert_eq!(page_size(2), 1);
    assert_eq!(page_size(0), 1);
}

#[test]
fn editing_keys_become_commands() {
    assert_eq!(command_for(Key::Typed("7".to_string()), false, false, false, 1), Command::BeginEdit(Some("7".to_string())));
    assert_eq!(command_for(Key::Edit, false, false, false, 1), Command::BeginEdit(None));
    assert_eq!(command_for(Key::Delete, false, false, false, 1), Command::Clear);
    assert_eq!(command_for(Key::Backspace, false, false, false, 1), Command::Clear);
    assert_eq!(command_for(Key::Escape, false, false, false, 1), Command::Nothing);
    assert_eq!(command_for(Key::Escape, false, false, true, 1), Command::CancelEdit);
    assert_eq!(command_for(Key::Enter, false, false, true, 1), Command::CommitThenStep { rows: 1, cols: 0 });
    assert_eq!(command_for(Key::Tab, false, true, true, 1), Command::CommitThenStep { rows: 0, cols: 1 });
    assert_eq!(command_for(Key::Left, false, false, true, 1), Command::NotMine);
}

#[test]
fn whole_columns_rows_and_everything_can_be_selected() {
    let mut s = Selection::new();
    s.select_column(3);
    assert_eq!(s.selection(), RangeRef::whole_columns(3, 3));
    s.select_row(7);
    assert_eq!(s.selection(), RangeRef::whole_rows(7, 7));
    s.select_all();
    assert_eq!(s.selection().to_a1(), "A1:XFD1048576");
    s.extend_to(CellRef::new(1, 1));
    assert_eq!(s.active(), CellRef::new(0, 0));
    assert_eq!(s.selection().to_a1(), "A1:B2");
}
