//! The workbook's bookkeeping that needs no numbers: what a recalculation
//! reports, why a sheet operation fails, addresses from their spelling, and
//! the name a new sheet gets.

use vstd::prelude::*;

use crate::coord::{parse_a1, CellAddr, CellRef, SheetId, A1Ref};
use crate::graph::{addr_key, ascending, insert_sorted};
use crate::text::{chars_of, decimal, push_decimal, push_str};
use crate::value::{chars_equal_ignoring_ascii_case, same_ignoring_ascii_case};

verus! {

/// What a recalculation did.
#[derive(Clone, Debug, Default)]
pub struct RecalcReport {
    /// Formulas evaluated.
    pub evaluated: usize,
    /// Cells whose value actually changed, which is what a view needs to
    /// repaint. A formula that recalculated to the same answer is not here.
    pub changed: Vec<CellAddr>,
    /// Cells that take part in a circular reference.
    ///
    /// They are left showing zero, which is what a spreadsheet does, and the
    /// caller is expected to warn.
    pub circular: Vec<CellAddr>,
}

impl RecalcReport {
    pub fn is_circular(&self) -> (b: bool)
        ensures
            b == (self.circular@.len() > 0),
    {
        self.circular.len() > 0
    }

    /// Record that a cell needs repainting, keeping the list tidy: in order
    /// of sheet, row and column, each cell once.
    pub fn note_changed(&mut self, addr: CellAddr)
        ensures
            final(self).evaluated == old(self).evaluated,
            final(self).circular == old(self).circular,
            ascending(old(self).changed@) ==> ascending(final(self).changed@),
            ascending(old(self).changed@) ==> forall|x: CellAddr| #[trigger] final(self).changed@.contains(x)
                <==> (old(self).changed@.contains(x) || x == addr),
    {
        insert_sorted(&mut self.changed, addr);
    }
}

/// Why a sheet operation failed.
#[derive(Clone, Copy, PartialEq, Eq, Structural, Debug)]
pub enum SheetError {
    NameTaken,
    NameEmpty,
    NoSuchSheet,
    /// A workbook always has at least one sheet.
    LastSheet,
}

impl SheetError {
    /// What a person is told.
    pub fn message(&self) -> (s: &'static str)
        ensures
            s@ == match self {
                SheetError::NameTaken => "a sheet with that name already exists"@,
                SheetError::NameEmpty => "a sheet needs a name"@,
                SheetError::NoSuchSheet => "no such sheet"@,
                SheetError::LastSheet => "a workbook needs at least one sheet"@,
            },
    {
        match self {
            SheetError::NameTaken => "a sheet with that name already exists",
            SheetError::NameEmpty => "a sheet needs a name",
            SheetError::NoSuchSheet => "no such sheet",
            SheetError::LastSheet => "a workbook needs at least one sheet",
        }
    }
}

/// Convenience for a full address from a sheet and an A1 spelling.
pub fn addr(sheet: SheetId, a1: &str) -> (r: Option<CellAddr>)
    ensures
        r == match parse_a1(a1@) {
            Ok(a) => Some(CellAddr { sheet, cell: a.cell }),
            Err(_) => None,
        },
{
    match A1Ref::parse(a1) {
        Ok(a) => Some(CellAddr::new(sheet, a.cell)),
        Err(_) => None,
    }
}

/// Convenience for a cell position from its A1 spelling.
pub fn cell_ref(a1: &str) -> (r: Option<CellRef>)
    ensures
        r == match parse_a1(a1@) {
            Ok(a) => Some(a.cell),
            Err(_) => None,
        },
{
    match A1Ref::parse(a1) {
        Ok(a) => Some(a.cell),
        Err(_) => None,
    }
}

/// The default name of the `n`-th sheet.
pub open spec fn numbered_sheet(n: nat) -> Seq<char> {
    seq!['S', 'h', 'e', 'e', 't'] + decimal(n)
}

/// Whether a workbook already has a sheet of some name; names are compared
/// ignoring ASCII case, as the workbook looks sheets up.
pub open spec fn name_taken(names: Seq<String>, name: Seq<char>) -> bool {
    exists|i: int| 0 <= i < names.len() && same_ignoring_ascii_case(#[trigger] names[i]@, name)
}

/// The name a new sheet gets: `SheetN` for the smallest `N` from 1 to 999
/// not already taken, or plain `Sheet` when all of them are.
pub open spec fn fresh_sheet_name(names: Seq<String>) -> Seq<char> {
    if exists|n: nat| 1 <= n < 1000 && !name_taken(names, #[trigger] numbered_sheet(n)) {
        numbered_sheet(
            choose|n: nat|
                1 <= n < 1000 && !name_taken(names, #[trigger] numbered_sheet(n)) && forall|m: nat|
                    1 <= m < n ==> name_taken(names, #[trigger] numbered_sheet(m)),
        )
    } else {
        seq!['S', 'h', 'e', 'e', 't']
    }
}

fn is_taken(names: &Vec<String>, candidate: &Vec<char>) -> (b: bool)
    ensures
        b == name_taken(names@, candidate@),
{
    let mut i: usize = 0;
    while i < names.len()
        invariant
            i <= names@.len(),
            forall|j: int| 0 <= j < i ==> !same_ignoring_ascii_case(#[trigger] names@[j]@, candidate@),
        decreases names.len() - i,
    {
        let existing = chars_of(names[i].as_str());
        if chars_equal_ignoring_ascii_case(&existing, candidate) {
            return true;
        }
        i = i + 1;
    }
    false
}

/// The name a new sheet gets, given the names the workbook has.
pub fn next_sheet_name(names: &Vec<String>) -> (s: String)
    ensures
        s@ == fresh_sheet_name(names@),
{
    let mut n: u64 = 1;
    while n < 1000
        invariant
            1 <= n <= 1000,
            forall|m: nat| 1 <= m < n ==> name_taken(names@, #[trigger] numbered_sheet(m)),
        decreases 1000 - n,
    {
        let mut candidate = String::new();
        push_str(&mut candidate, "Sheet");
        push_decimal(&mut candidate, n);
        let chars = chars_of(candidate.as_str());
        proof {
            reveal_strlit("Sheet");
            assert(candidate@ == numbered_sheet(n as nat));
        }
        if !is_taken(names, &chars) {
            proof {
                let w = n as nat;
                assert(1 <= w < 1000 && !name_taken(names@, numbered_sheet(w)) && forall|m: nat|
                    1 <= m < w ==> name_taken(names@, #[trigger] numbered_sheet(m)));
                let c = choose|c: nat|
                    1 <= c < 1000 && !name_taken(names@, #[trigger] numbered_sheet(c)) && forall|m: nat|
                        1 <= m < c ==> name_taken(names@, #[trigger] numbered_sheet(m));
                if c < w {
                    assert(name_taken(names@, numbered_sheet(c)));
                } else if c > w {
                    assert(name_taken(names@, numbered_sheet(w)));
                }
            }
            return candidate;
        }
        n = n + 1;
    }
    let mut fallback = String::new();
    push_str(&mut fallback, "Sheet");
    proof {
        reveal_strlit("Sheet");
    }
    fallback
}

} // verus!
