use ferrum::coord::{
    column_label, parse_column_label, A1Ref, CellRef, ParseRefError, RangeRef, MAX_COL, MAX_ROW,
};

#[test]
fn column_labels_cover_the_whole_grid() {
    assert_eq!(column_label(0), "A");
    assert_eq!(column_label(25), "Z");
    assert_eq!(column_label(26), "AA");
    assert_eq!(column_label(51), "AZ");
    assert_eq!(column_label(52), "BA");
    assert_eq!(column_label(701), "ZZ");
    assert_eq!(column_label(702), "AAA");
    assert_eq!(column_label(MAX_COL), "XFD");
}

#[test]
fn column_labels_round_trip() {
    for col in [0, 1, 25, 26, 27, 701, 702, 16_000, MAX_COL] {
        assert_eq!(
            parse_column_label(&column_label(col)),
            Some(col),
            "column {col}"
        );
    }
}

#[test]
fn column_labels_are_case_insensitive() {
    assert_eq!(parse_column_label("xfd"), Some(MAX_COL));
    assert_eq!(parse_column_label("XfD"), Some(MAX_COL));
}

#[test]
fn columns_past_the_last_are_rejected() {
    assert_eq!(parse_column_label("XFE"), None);
    assert_eq!(parse_column_label("ZZZ"), None);
    assert_eq!(parse_column_label("AAAA"), None);
    assert_eq!(parse_column_label(""), None);
    assert_eq!(parse_column_label("A1"), None);
}

#[test]
fn a1_references_parse_with_their_markers() {
    let plain = A1Ref::parse("B3").unwrap();
    assert_eq!(plain.cell, CellRef::new(2, 1));
    assert!(!plain.col_absolute && !plain.row_absolute);

    let pinned = A1Ref::parse("$B$3").unwrap();
    assert_eq!(pinned.cell, CellRef::new(2, 1));
    assert!(pinned.col_absolute && pinned.row_absolute);

    let mixed = A1Ref::parse("B$3").unwrap();
    assert!(!mixed.col_absolute && mixed.row_absolute);

    let other_mixed = A1Ref::parse("$B3").unwrap();
    assert!(other_mixed.col_absolute && !other_mixed.row_absolute);
}

#[test]
fn a1_references_round_trip() {
    for text in ["A1", "$A1", "A$1", "$A$1", "XFD1048576", "Z99"] {
        assert_eq!(A1Ref::parse(text).unwrap().to_a1(), text);
    }
}

#[test]
fn malformed_references_are_rejected() {
    assert_eq!(A1Ref::parse("1A"), Err(ParseRefError::Malformed));
    assert_eq!(A1Ref::parse("A"), Err(ParseRefError::Malformed));
    assert_eq!(A1Ref::parse("A1x"), Err(ParseRefError::Malformed));
    assert_eq!(A1Ref::parse(""), Err(ParseRefError::Malformed));
    assert_eq!(A1Ref::parse("A0"), Err(ParseRefError::RowRange));
    assert_eq!(A1Ref::parse("A1048577"), Err(ParseRefError::RowRange));
    assert_eq!(A1Ref::parse("XFE1"), Err(ParseRefError::ColumnRange));
}

#[test]
fn offsets_move_only_the_relative_parts() {
    let mixed = A1Ref::parse("$B3").unwrap();
    assert_eq!(mixed.offset(2, 5).unwrap().to_a1(), "$B5");

    let relative = A1Ref::parse("B3").unwrap();
    assert_eq!(relative.offset(2, 5).unwrap().to_a1(), "G5");

    let pinned = A1Ref::parse("$B$3").unwrap();
    assert_eq!(pinned.offset(2, 5).unwrap().to_a1(), "$B$3");
}

#[test]
fn offsets_off_the_grid_fail() {
    let corner = A1Ref::parse("A1").unwrap();
    assert_eq!(corner.offset(-1, 0), None);
    assert_eq!(corner.offset(0, -1), None);
    assert_eq!(corner.offset(MAX_ROW as i64 + 1, 0), None);
}

#[test]
fn ranges_normalise_their_corners() {
    let range = RangeRef::new(CellRef::new(5, 5), CellRef::new(1, 2));
    assert_eq!(range.start, CellRef::new(1, 2));
    assert_eq!(range.end, CellRef::new(5, 5));
    assert_eq!(range.to_a1(), "C2:F6");
}

#[test]
fn a_single_cell_range_renders_without_a_colon() {
    assert_eq!(RangeRef::single(CellRef::new(0, 0)).to_a1(), "A1");
}

#[test]
fn whole_column_area_exceeds_a_u32() {
    let column = RangeRef::whole_columns(0, 0);
    assert_eq!(column.area(), 1_048_576);
    assert_eq!(RangeRef::whole_columns(0, MAX_COL).area(), 17_179_869_184);
}

#[test]
fn range_intersection_is_the_overlap() {
    let left = RangeRef::new(CellRef::new(0, 0), CellRef::new(4, 4));
    let right = RangeRef::new(CellRef::new(3, 3), CellRef::new(9, 9));
    assert_eq!(
        left.intersection(&right),
        Some(RangeRef::new(CellRef::new(3, 3), CellRef::new(4, 4)))
    );

    let apart = RangeRef::new(CellRef::new(20, 20), CellRef::new(21, 21));
    assert_eq!(left.intersection(&apart), None);
}

#[test]
fn ranges_walk_in_reading_order() {
    let range = RangeRef::new(CellRef::new(0, 0), CellRef::new(1, 1));
    let visited: Vec<_> = range.cells().into_iter().map(|c| c.to_a1()).collect();
    assert_eq!(visited, ["A1", "B1", "A2", "B2"]);
}

#[test]
fn lowercase_letters_and_leading_zeros_are_read() {
    let r = A1Ref::parse("c$03").unwrap();
    assert_eq!(r.cell, CellRef::new(2, 2));
    assert!(!r.col_absolute && r.row_absolute);
    assert_eq!(r.to_a1(), "C$3");
}

#[test]
fn a_long_run_of_letters_is_out_of_range_before_the_digits_are_read() {
    assert_eq!(A1Ref::parse("XFE"), Err(ParseRefError::ColumnRange));
    assert_eq!(A1Ref::parse("ABCD1"), Err(ParseRefError::ColumnRange));
    assert_eq!(A1Ref::parse("A99999999999"), Err(ParseRefError::RowRange));
    assert_eq!(A1Ref::parse("$"), Err(ParseRefError::Malformed));
    assert_eq!(A1Ref::parse("A$"), Err(ParseRefError::Malformed));
}

#[test]
fn a_cell_offset_lands_exactly_where_the_arithmetic_says() {
    let cell = CellRef::new(10, 10);
    assert_eq!(cell.offset(-10, -10), Some(CellRef::new(0, 0)));
    assert_eq!(cell.offset(i64::MAX, 0), None);
    assert_eq!(cell.offset(0, MAX_COL as i64 - 10), Some(CellRef::new(10, MAX_COL)));
    assert_eq!(cell.offset(0, MAX_COL as i64 - 9), None);
    assert!(CellRef::new(MAX_ROW, MAX_COL).is_valid());
    assert!(!CellRef::new(MAX_ROW + 1, 0).is_valid());
}

#[test]
fn union_bounds_covers_both_and_no_more() {
    let a = RangeRef::new(CellRef::new(1, 5), CellRef::new(2, 6));
    let b = RangeRef::new(CellRef::new(7, 0), CellRef::new(8, 1));
    let u = a.union_bounds(&b);
    assert_eq!(u, RangeRef::new(CellRef::new(1, 0), CellRef::new(8, 6)));
    assert_eq!(u.height(), 8);
    assert_eq!(u.width(), 7);
    assert!(u.contains(CellRef::new(4, 3)));
    assert!(!u.contains(CellRef::new(9, 3)));
    assert!(a.intersects(&a) && !a.intersects(&b));
}

#[test]
fn labels_past_three_letters_keep_the_last_three() {
    // Column 18278 is AAAA, which a three-letter label shows as AAA.
    assert_eq!(column_label(18_278), "AAA");
    assert_eq!(CellRef::new(0, 27).to_a1(), "AB1");
}
