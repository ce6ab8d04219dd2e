use ferrum::coord::{CellRef, RangeRef};
use ferrum::harness::{cell_of, centred, field, range_of};

#[test]
fn a_field_pads_on_the_side_the_text_is_not_against() {
    assert_eq!(field("ab", false, 5), "ab   ");
    assert_eq!(field("ab", true, 5), "   ab");
}

#[test]
fn a_field_marks_where_it_clipped() {
    assert_eq!(field("abcdef", false, 4), "abc~");
}

#[test]
fn a_field_exactly_as_wide_as_its_text_is_the_text() {
    assert_eq!(field("abcd", true, 4), "abcd");
    assert_eq!(field("", false, 0), "");
    assert_eq!(field("ab", true, 1), "~");
}

#[test]
fn centred_text_leaves_the_odd_space_on_the_right() {
    assert_eq!(centred("ab", 5), " ab  ");
    assert_eq!(centred("ab", 6), "  ab  ");
    assert_eq!(centred("abcdef", 4), "abcd");
}

#[test]
fn cells_and_ranges_read_the_way_they_are_written() {
    assert_eq!(cell_of("B3"), CellRef::new(2, 1));
    assert_eq!(cell_of("$C$1"), CellRef::new(0, 2));
    assert_eq!(range_of("B2:C4"), RangeRef::new(CellRef::new(1, 1), CellRef::new(3, 2)));
    assert_eq!(range_of("C4:B2"), RangeRef::new(CellRef::new(1, 1), CellRef::new(3, 2)));
    assert_eq!(range_of("D7"), RangeRef::single(CellRef::new(6, 3)));
}
