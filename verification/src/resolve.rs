//! How the evaluator turns references into cells: a written reference into
//! its areas, a range operator into one rectangle, a range standing where one
//! value is wanted into the cell that lines up with the formula, and a
//! reference into the part of it that holds anything.

use vstd::prelude::*;
use vstd::math::{max, min};

use crate::ast::{RefTarget, SheetRef};
use crate::coord::{CellAddr, CellRef, RangeAddr, RangeRef, SheetId};
use crate::graph::{range_of, target_range};
use crate::operand::{overlap, shared_areas, Reference};
use crate::value::CalcError;

verus! {

/// The cell a reference stands for where one value is wanted, by the classic
/// rule: a single cell is itself; a single row gives the cell in the
/// formula's own column, and a single column the cell in its own row, when
/// they line up; anything else is a `#VALUE!`.
pub open spec fn implicit_spec(areas: Seq<RangeAddr>, origin: CellRef) -> Result<CellAddr, CalcError> {
    if areas.len() != 1 {
        Err(CalcError::Value)
    } else {
        let area = areas[0];
        let r = area.range;
        if r.start == r.end {
            Ok(CellAddr { sheet: area.sheet, cell: r.start })
        } else if r.start.row == r.end.row && r.start.col <= origin.col <= r.end.col {
            Ok(CellAddr { sheet: area.sheet, cell: CellRef { row: r.start.row, col: origin.col } })
        } else if r.start.col == r.end.col && r.start.row <= origin.row <= r.end.row {
            Ok(CellAddr { sheet: area.sheet, cell: CellRef { row: origin.row, col: r.start.col } })
        } else {
            Err(CalcError::Value)
        }
    }
}

/// The cell a reference collapses to where one value is wanted, from the
/// formula's own position.
pub fn implicit_cell(reference: &Reference, origin: CellRef) -> (r: Result<CellAddr, CalcError>)
    ensures
        r == implicit_spec(reference.area_list(), origin),
{
    let area = match reference.as_single_area() {
        Some(area) => area,
        None => {
            return Err(CalcError::Value);
        },
    };
    let range = area.range;
    if range.start == range.end {
        return Ok(CellAddr::new(area.sheet, range.start));
    }
    if range.start.row == range.end.row && origin.col >= range.start.col && origin.col <= range.end.col {
        return Ok(CellAddr::new(area.sheet, CellRef::new(range.start.row, origin.col)));
    }
    if range.start.col == range.end.col && origin.row >= range.start.row && origin.row <= range.end.row {
        return Ok(CellAddr::new(area.sheet, CellRef::new(origin.row, range.start.col)));
    }
    Err(CalcError::Value)
}

/// The rectangle spanning two references joined by `:`: both must be one
/// area (else `#VALUE!`) on the same sheet (else `#REF!`).
pub open spec fn range_op_spec(x: Seq<RangeAddr>, y: Seq<RangeAddr>) -> Result<RangeAddr, CalcError> {
    if x.len() != 1 || y.len() != 1 {
        Err(CalcError::Value)
    } else if x[0].sheet != y[0].sheet {
        Err(CalcError::Ref)
    } else {
        let a = x[0].range;
        let b = y[0].range;
        Ok(
            RangeAddr {
                sheet: x[0].sheet,
                range: RangeRef {
                    start: CellRef {
                        row: min(a.start.row as int, b.start.row as int) as u32,
                        col: min(a.start.col as int, b.start.col as int) as u32,
                    },
                    end: CellRef {
                        row: max(a.end.row as int, b.end.row as int) as u32,
                        col: max(a.end.col as int, b.end.col as int) as u32,
                    },
                },
            },
        )
    }
}

/// `left:right` where both sides are references: the smallest rectangle
/// covering both.
pub fn range_op(x: &Reference, y: &Reference) -> (r: Result<Reference, CalcError>)
    ensures
        match range_op_spec(x.area_list(), y.area_list()) {
            Ok(area) => r matches Ok(reference) && reference.area_list() == seq![area],
            Err(e) => r matches Err(f) && f == e,
        },
{
    let first = match x.as_single_area() {
        Some(a) => a,
        None => {
            return Err(CalcError::Value);
        },
    };
    let last = match y.as_single_area() {
        Some(a) => a,
        None => {
            return Err(CalcError::Value);
        },
    };
    if first.sheet != last.sheet {
        return Err(CalcError::Ref);
    }
    Ok(Reference::single(first.sheet, first.range.union_bounds(&last.range)))
}

/// A written reference on the sheets it names: the same rectangle on each,
/// in order. A `#REF!` written in the formula, or no sheet at all, is a
/// `#REF!`.
pub fn reference_to(sheets: &Vec<SheetId>, target: &RefTarget) -> (r: Result<Reference, CalcError>)
    ensures
        match target_range(*target) {
            None => r matches Err(e) && e == CalcError::Ref,
            Some(range) => if sheets@.len() == 0 {
                r matches Err(e) && e == CalcError::Ref
            } else {
                r matches Ok(reference) && reference.area_list() == sheets@.map_values(
                    |s: SheetId| RangeAddr { sheet: s, range },
                )
            },
        },
{
    let range = match range_of(target) {
        Some(range) => range,
        None => {
            return Err(CalcError::Ref);
        },
    };
    let mut areas: Vec<RangeAddr> = Vec::new();
    let mut i: usize = 0;
    while i < sheets.len()
        invariant
            i <= sheets@.len(),
            areas@ == sheets@.subrange(0, i as int).map_values(|s: SheetId| RangeAddr { sheet: s, range }),
        decreases sheets.len() - i,
    {
        areas.push(RangeAddr::new(sheets[i], range));
        i = i + 1;
        assert(areas@ =~= sheets@.subrange(0, i as int).map_values(|s: SheetId| RangeAddr { sheet: s, range }));
    }
    assert(sheets@.subrange(0, sheets@.len() as int) =~= sheets@);
    match Reference::new(areas) {
        Some(reference) => Ok(reference),
        None => Err(CalcError::Ref),
    }
}

/// The part of each area that holds anything, given the used box of each
/// sheet by id: an area on a sheet with nothing in it, or outside what is
/// used, drops out.
pub open spec fn clipped_spec(areas: Seq<RangeAddr>, used: Seq<Option<RangeRef>>) -> Seq<RangeAddr>
    decreases areas.len(),
{
    if areas.len() == 0 {
        Seq::empty()
    } else {
        let area = areas.last();
        clipped_spec(areas.drop_last(), used) + match (if area.sheet.0 < used.len() { used[area.sheet.0 as int] } else { None }) {
            Some(b) => if area.range.overlaps(b) {
                seq![RangeAddr { sheet: area.sheet, range: overlap(area.range, b) }]
            } else {
                Seq::empty()
            },
            None => Seq::empty(),
        }
    }
}

/// Every area of a reference, clipped to the cells its sheet actually
/// holds.
///
/// A whole-column reference addresses a million cells and almost always
/// touches a handful. Clipping is what makes aggregates over one cost the
/// data rather than the address space.
pub fn clipped_areas(reference: &Reference, used: &Vec<Option<RangeRef>>) -> (r: Vec<RangeAddr>)
    ensures
        r@ == clipped_spec(reference.area_list(), used@),
{
    let areas = reference.areas();
    let mut out: Vec<RangeAddr> = Vec::new();
    let mut i: usize = 0;
    while i < areas.len()
        invariant
            i <= areas@.len(),
            areas@ == reference.area_list(),
            out@ == clipped_spec(areas@.subrange(0, i as int), used@),
        decreases areas.len() - i,
    {
        let area = areas[i];
        let bounds = if (area.sheet.0 as usize) < used.len() {
            used[area.sheet.0 as usize]
        } else {
            None
        };
        match bounds {
            Some(b) => match area.range.intersection(&b) {
                Some(clipped) => {
                    out.push(RangeAddr::new(area.sheet, clipped));
                },
                None => {},
            },
            None => {},
        }
        assert(areas@.subrange(0, i + 1).drop_last() =~= areas@.subrange(0, i as int));
        assert(out@ =~= clipped_spec(areas@.subrange(0, i + 1), used@));
        i = i + 1;
    }
    assert(areas@.subrange(0, areas@.len() as int) =~= areas@);
    out
}

/// The sheet a defined name is looked up in: the whole workbook without a
/// sheet; a named sheet that was `found`, or a `#REF!` when there is none by
/// that name; a span of sheets cannot scope a name, which is a `#NAME?`.
pub fn name_scope(sheet: Option<&SheetRef>, found: Option<SheetId>) -> (r: Result<Option<SheetId>, CalcError>)
    ensures
        r == match sheet {
            None => Ok::<Option<SheetId>, CalcError>(None),
            Some(SheetRef::One(_)) => match found {
                Some(id) => Ok::<Option<SheetId>, CalcError>(Some(id)),
                None => Err::<Option<SheetId>, CalcError>(CalcError::Ref),
            },
            Some(SheetRef::Span { .. }) => Err::<Option<SheetId>, CalcError>(CalcError::Name),
        },
{
    match sheet {
        None => Ok(None),
        Some(SheetRef::One(_)) => match found {
            Some(id) => Ok(Some(id)),
            None => Err(CalcError::Ref),
        },
        Some(SheetRef::Span { .. }) => Err(CalcError::Name),
    }
}

/// The intersection operator (a space between two references): the cells
/// both share, a `#NULL!` when they share none, and a `#VALUE!` when either
/// side is not a reference (`None`).
pub fn intersect_references(left: Option<&Reference>, right: Option<&Reference>) -> (r: Result<Reference, CalcError>)
    ensures
        match (left, right) {
            (Some(x), Some(y)) => {
                let shared = shared_areas(x.area_list(), y.area_list());
                if shared.len() == 0 {
                    r == Err::<Reference, CalcError>(CalcError::Null)
                } else {
                    r matches Ok(joined) && joined.area_list() == shared
                }
            },
            _ => r == Err::<Reference, CalcError>(CalcError::Value),
        },
{
    match (left, right) {
        (Some(x), Some(y)) => match x.intersect(y) {
            Some(shared) => Ok(shared),
            None => Err(CalcError::Null),
        },
        _ => Err(CalcError::Value),
    }
}

/// The areas of several references laid end to end.
pub open spec fn joined_areas(parts: Seq<Option<Reference>>) -> Seq<RangeAddr>
    decreases parts.len(),
{
    if parts.len() == 0 {
        seq![]
    } else {
        joined_areas(parts.drop_last()) + match parts.last() {
            Some(r) => r.area_list(),
            None => seq![],
        }
    }
}

/// The union operator (commas inside brackets): every part's areas, in
/// order; a `#VALUE!` when some part is not a reference (`None`), and a
/// `#NULL!` when there are no parts.
pub fn union_references(parts: Vec<Option<Reference>>) -> (r: Result<Reference, CalcError>)
    ensures
        (exists|i: int| 0 <= i < parts@.len() && (#[trigger] parts@[i]) is None) ==> r == Err::<Reference, CalcError>(
            CalcError::Value,
        ),
        (forall|i: int| 0 <= i < parts@.len() ==> (#[trigger] parts@[i]) is Some) ==> if parts@.len() == 0 {
            r == Err::<Reference, CalcError>(CalcError::Null)
        } else {
            r matches Ok(joined) && joined.area_list() == joined_areas(parts@)
        },
{
    let ghost all = parts@;
    let mut joined: Option<Reference> = None;
    let mut rest = parts;
    let mut taken: usize = 0;
    let n = rest.len();
    while rest.len() > 0
        invariant
            n == all.len(),
            all == parts@,
            taken + rest@.len() == n,
            rest@ == all.skip(taken as int),
            forall|i: int| 0 <= i < taken ==> (#[trigger] all[i]) is Some,
            taken == 0 <==> joined is None,
            joined matches Some(j) ==> j.area_list() == joined_areas(all.take(taken as int)),
        decreases rest.len(),
    {
        let part = rest.remove(0);
        assert(part == all[taken as int]);
        assert(rest@ =~= all.skip(taken + 1));
        assert(all.take(taken + 1).drop_last() =~= all.take(taken as int));
        let reference = match part {
            Some(reference) => reference,
            None => {
                return Err(CalcError::Value);
            },
        };
        joined = Some(match joined {
            None => {
                assert(joined_areas(all.take(0)) =~= seq![]);
                assert(seq![] + reference.area_list() =~= reference.area_list());
                reference
            },
            Some(acc) => acc.union(reference),
        });
        assert(all.take(taken + 1).last() == part);
        taken = taken + 1;
    }
    assert(all.take(n as int) =~= all);
    match joined {
        Some(j) => Ok(j),
        None => Err(CalcError::Null),
    }
}

} // verus!
