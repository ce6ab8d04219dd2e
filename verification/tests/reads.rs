use ferrum::coord::{A1Ref, CellAddr, RangeAddr, RangeRef, SheetId};
use ferrum::graph::Dependency;
use ferrum::parser::parse;
use ferrum::reads::dependencies_of;
use ferrum::sheets::Sheets;

const SHEET: SheetId = SheetId(0);

fn at(a1: &str) -> CellAddr {
    CellAddr::new(SHEET, A1Ref::parse(a1).unwrap().cell)
}

fn range(a: &str, b: &str) -> RangeAddr {
    RangeAddr::new(SHEET, RangeRef::new(A1Ref::parse(a).unwrap().cell, A1Ref::parse(b).unwrap().cell))
}

/// A workbook with `Sheet1` and `Data`, in that order.
fn book() -> Sheets<u32> {
    let mut sheets = Sheets::new(0);
    sheets.add_sheet("Data", 1).unwrap();
    sheets
}

fn deps(formula: &str) -> Vec<Dependency> {
    let expr = parse(formula).unwrap();
    dependencies_of(&expr, SHEET, &book())
}

#[test]
fn a_single_reference_is_a_cell_dependency() {
    assert_eq!(deps("=A1+1"), [Dependency::Cell(at("A1"))]);
}

#[test]
fn a_range_reference_is_a_range_dependency() {
    assert_eq!(deps("=SUM(A1:B2)"), [Dependency::Range(range("A1", "B2"))]);
}

#[test]
fn dependencies_are_deduplicated() {
    assert_eq!(deps("=A1+A1+A1"), [Dependency::Cell(at("A1"))]);
}

#[test]
fn a_sheet_span_depends_on_every_sheet_in_it() {
    let found = deps("=SUM(Sheet1:Data!A1)");
    assert_eq!(found.len(), 2);
}

#[test]
fn an_unresolvable_sheet_contributes_nothing() {
    assert!(deps("=Nowhere!A1").is_empty());
}

#[test]
fn a_broken_reference_contributes_nothing() {
    assert!(deps("=#REF!+1").is_empty());
}

#[test]
fn nested_expressions_are_walked() {
    let found = deps("=IF(A1>0,SUM(B1:B3),{1,2})");
    assert_eq!(found, [Dependency::Cell(at("A1")), Dependency::Range(range("B1", "B3"))]);
}

#[test]
fn dependencies_come_out_sorted_by_sheet_then_corner() {
    let found = deps("=Data!C3+B2+A1:A2+A1");
    assert_eq!(
        found,
        [
            Dependency::Cell(at("A1")),
            Dependency::Range(range("A1", "A2")),
            Dependency::Cell(at("B2")),
            Dependency::Cell(CellAddr::new(SheetId(1), A1Ref::parse("C3").unwrap().cell)),
        ]
    );
}

#[test]
fn a_named_sheet_is_found_ignoring_case() {
    let found = deps("=data!B5");
    assert_eq!(found, [Dependency::Cell(CellAddr::new(SheetId(1), A1Ref::parse("B5").unwrap().cell))]);
}
