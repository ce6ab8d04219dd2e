//! Which cells a conditional aggregate (`SUMIF`, `AVERAGEIF`, `COUNTIF`)
//! looks at.
//!
//! The value tested and the value totalled can come from different ranges, so
//! each matching cell is located by its offset from the tested range's own
//! top-left corner. Taking the offset from the clipped range instead would
//! shift every answer the moment the first rows of a column were empty.
//!
//! Comparing a cell's value against the criterion, and adding the totalled
//! numbers up, is left to the caller: here the matches arrive as flags.
use vstd::prelude::*;

use crate::coord::{CellAddr, RangeAddr, MAX_COL, MAX_ROW};
use crate::operand::Reference;
use crate::value::CalcError;

verus! {

/// The single area of a reference, when it has exactly one.
pub open spec fn single_area(reference: Reference) -> Option<RangeAddr> {
    if reference.area_list().len() == 1 {
        Some(reference.area_list()[0])
    } else {
        None
    }
}

/// What the argument checks of a conditional aggregate give, in the order
/// they are made: the tested range first, then the criterion, then the
/// totalled range.
pub open spec fn areas_spec(
    tested: Option<Reference>,
    criterion: Option<CalcError>,
    totalled: Option<Option<Reference>>,
) -> Result<(RangeAddr, Option<RangeAddr>), CalcError> {
    match tested {
        None => Err(CalcError::Value),
        Some(t) => match single_area(t) {
            None => Err(CalcError::Value),
            Some(area) => match criterion {
                Some(e) => Err(e),
                None => match totalled {
                    None => Ok((area, None)),
                    Some(None) => Err(CalcError::Value),
                    Some(Some(r)) => match single_area(r) {
                        None => Err(CalcError::Value),
                        Some(target) => Ok((area, Some(target))),
                    },
                },
            },
        },
    }
}

/// Check the arguments of a conditional aggregate.
///
/// `tested` is the first argument when it is a reference (`None` when it is
/// anything else); `criterion` is the error that reading the criterion raised,
/// if any; `totalled` is the third argument, absent (`None`), not a reference
/// (`Some(None)`) or a reference. The tested and the totalled reference must
/// each be a single area, or the answer is `#VALUE!`.
pub fn conditional_areas(
    tested: Option<&Reference>,
    criterion: Option<CalcError>,
    totalled: Option<Option<&Reference>>,
) -> (r: Result<(RangeAddr, Option<RangeAddr>), CalcError>)
    ensures
        r == areas_spec(
            match tested {
                Some(t) => Some(*t),
                None => None,
            },
            criterion,
            match totalled {
                None => None,
                Some(None) => Some(None::<Reference>),
                Some(Some(t)) => Some(Some(*t)),
            },
        ),
{
    let area = match tested {
        None => {
            return Err(CalcError::Value);
        },
        Some(t) => match t.as_single_area() {
            None => {
                return Err(CalcError::Value);
            },
            Some(area) => area,
        },
    };
    if let Some(e) = criterion {
        return Err(e);
    }
    match totalled {
        None => Ok((area, None)),
        Some(None) => Err(CalcError::Value),
        Some(Some(r)) => match r.as_single_area() {
            None => Err(CalcError::Value),
            Some(target) => Ok((area, Some(target))),
        },
    }
}

/// The cell whose value a matching `cell` of the tested range contributes:
/// the cell itself without a totalled range, else the cell at the same offset
/// from the totalled range's corner as `cell` has from the tested range's,
/// when that stays on the grid.
pub open spec fn totalled_spec(tested: RangeAddr, totalled: Option<RangeAddr>, cell: CellAddr) -> Option<CellAddr> {
    match totalled {
        None => Some(cell),
        Some(target) => match target.range.start.moved(
            cell.cell.row - tested.range.start.row,
            cell.cell.col - tested.range.start.col,
        ) {
            Some(moved) => Some(CellAddr { sheet: target.sheet, cell: moved }),
            None => None,
        },
    }
}

/// Locate the cell that a matching tested `cell` contributes.
pub fn totalled_cell(tested: RangeAddr, totalled: Option<RangeAddr>, cell: CellAddr) -> (r: Option<CellAddr>)
    ensures
        r == totalled_spec(tested, totalled, cell),
{
    match totalled {
        None => Some(cell),
        Some(target) => {
            let rows: i64 = cell.cell.row as i64 - tested.range.start.row as i64;
            let cols: i64 = cell.cell.col as i64 - tested.range.start.col as i64;
            match target.range.start.offset(rows, cols) {
                Some(moved) => Some(CellAddr::new(target.sheet, moved)),
                None => None,
            }
        },
    }
}

/// How many flags are set.
pub open spec fn count_set(flags: Seq<bool>) -> nat
    decreases flags.len(),
{
    if flags.len() == 0 {
        0
    } else {
        count_set(flags.drop_last()) + if flags.last() {
            1nat
        } else {
            0nat
        }
    }
}

/// The contributing cells of the matching visited cells, in visiting order;
/// a match whose contributing cell would lie off the grid contributes nothing.
pub open spec fn selected_spec(
    tested: RangeAddr,
    totalled: Option<RangeAddr>,
    visited: Seq<CellAddr>,
    matched: Seq<bool>,
) -> Seq<CellAddr>
    decreases visited.len(),
{
    if visited.len() == 0 || matched.len() != visited.len() {
        seq![]
    } else {
        let before = selected_spec(tested, totalled, visited.drop_last(), matched.drop_last());
        if matched.last() {
            match totalled_spec(tested, totalled, visited.last()) {
                Some(c) => before.push(c),
                None => before,
            }
        } else {
            before
        }
    }
}

/// Which cells of a conditional aggregate count, and which values it totals.
///
/// `visited` are the tested cells in the order they are read, `matched` says
/// for each whether it meets the criterion. The answer is the number of
/// matches (what `COUNTIF` gives, and what `AVERAGEIF` divides by) and the
/// cells whose values are totalled, in order.
pub fn conditional_cells(
    tested: RangeAddr,
    totalled: Option<RangeAddr>,
    visited: &[CellAddr],
    matched: &[bool],
) -> (r: (u64, Vec<CellAddr>))
    requires
        visited@.len() == matched@.len(),
        visited@.len() <= u64::MAX,
    ensures
        r.0 == count_set(matched@),
        r.1@ == selected_spec(tested, totalled, visited@, matched@),
{
    let mut count: u64 = 0;
    let mut cells: Vec<CellAddr> = Vec::new();
    let n = visited.len();
    let mut i: usize = 0;
    while i < n
        invariant
            n == visited@.len(),
            n == matched@.len(),
            n <= u64::MAX,
            i <= n,
            count == count_set(matched@.take(i as int)),
            count <= i,
            cells@ == selected_spec(tested, totalled, visited@.take(i as int), matched@.take(i as int)),
        decreases n - i,
    {
        assert(matched@.take(i + 1).drop_last() =~= matched@.take(i as int));
        assert(visited@.take(i + 1).drop_last() =~= visited@.take(i as int));
        if matched[i] {
            count = count + 1;
            match totalled_cell(tested, totalled, visited[i]) {
                Some(c) => cells.push(c),
                None => {},
            }
        }
        i = i + 1;
    }
    assert(matched@.take(n as int) =~= matched@);
    assert(visited@.take(n as int) =~= visited@);
    (count, cells)
}

/// A matching cell totals the cell at the same row and column offset from
/// the totalled range's corner as it has from the tested range's corner,
/// when that cell is on the grid, and nothing when it is not; without a
/// totalled range it totals itself.
pub proof fn lemma_totalled_cell_keeps_both_offsets(tested: RangeAddr, totalled: RangeAddr, cell: CellAddr)
    ensures
        totalled_spec(tested, None, cell) == Some(cell),
        ({
            let row: int = totalled.range.start.row + (cell.cell.row - tested.range.start.row);
            let col: int = totalled.range.start.col + (cell.cell.col - tested.range.start.col);
            &&& (totalled_spec(tested, Some(totalled), cell) is Some <==> 0 <= row <= MAX_ROW && 0 <= col
                <= MAX_COL)
            &&& (totalled_spec(tested, Some(totalled), cell) matches Some(m) ==> m.sheet == totalled.sheet
                && m.cell.row == row && m.cell.col == col)
        }),
{
}

/// Every cell a conditional aggregate totals is the totalled cell of a
/// matching visited cell, and there are never more of them than matches:
/// exactly as many when there is no separate totalled range.
pub proof fn lemma_totals_come_from_matches(
    tested: RangeAddr,
    totalled: Option<RangeAddr>,
    visited: Seq<CellAddr>,
    matched: Seq<bool>,
)
    requires
        visited.len() == matched.len(),
    ensures
        selected_spec(tested, totalled, visited, matched).len() <= count_set(matched),
        totalled is None ==> selected_spec(tested, totalled, visited, matched).len() == count_set(matched),
        forall|k: int|
            0 <= k < selected_spec(tested, totalled, visited, matched).len() ==> exists|i: int|
                0 <= i < visited.len() && matched[i] && totalled_spec(tested, totalled, visited[i]) == Some(
                    #[trigger] selected_spec(tested, totalled, visited, matched)[k],
                ),
    decreases visited.len(),
{
    if visited.len() > 0 {
        let v0 = visited.drop_last();
        let m0 = matched.drop_last();
        lemma_totals_come_from_matches(tested, totalled, v0, m0);
        let before = selected_spec(tested, totalled, v0, m0);
        let now = selected_spec(tested, totalled, visited, matched);
        let n = visited.len() - 1;
        assert forall|k: int| 0 <= k < now.len() implies exists|i: int|
            0 <= i < visited.len() && matched[i] && totalled_spec(tested, totalled, visited[i]) == Some(
                #[trigger] now[k],
            ) by {
            if k < before.len() {
                assert(now[k] == before[k]);
                let i = choose|i: int|
                    0 <= i < v0.len() && m0[i] && totalled_spec(tested, totalled, v0[i]) == Some(before[k]);
                assert(visited[i] == v0[i] && matched[i] == m0[i]);
            } else {
                assert(matched[n] && totalled_spec(tested, totalled, visited[n]) == Some(now[k]));
            }
        }
    }
}
} // verus!
