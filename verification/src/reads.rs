//! What a formula reads: every reference in its tree, on the sheets it
//! names, as the cells and ranges the dependency graph records.
//!
//! A sheet name that names no sheet contributes nothing, because there is
//! nothing to depend on; the formula reports `#REF!` when it is evaluated.
//! The list comes out sorted and without repeats, so that reading one range
//! twice registers it once.

use vstd::prelude::*;

use crate::ast::{Expr, SheetRef};
use crate::coord::{CellAddr, RangeAddr, RangeRef, SheetId};
use crate::graph::{range_of, target_range, Dependency};
use crate::parser::{expr_view, list_view, rows_view, ExprView, SheetView};
use crate::sheets::Sheets;

verus! {

/// The sheets a reference is on: the formula's own sheet when none is
/// written, the sheet named, or every sheet of a span in tab order.
pub open spec fn ref_sheets<T>(sheet: Option<SheetView>, current: SheetId, book: Sheets<T>) -> Seq<SheetId> {
    match sheet {
        None => seq![current],
        Some(SheetView::One(name)) => match book.named(name) {
            Some(id) => seq![id],
            None => Seq::empty(),
        },
        Some(SheetView::Span { first, last }) => match (
            book.position_from(first, 0),
            book.position_from(last, 0),
        ) {
            (Some(a), Some(b)) => book.ids().subrange(
                if a <= b {
                    a
                } else {
                    b
                },
                (if a <= b {
                    b
                } else {
                    a
                }) + 1,
            ),
            _ => Seq::empty(),
        },
    }
}

/// A dependency in the form `dependency_on` gives: a range of one cell is
/// recorded as that cell.
pub open spec fn canonical(d: Dependency) -> bool {
    d matches Dependency::Range(area) ==> area.range.start != area.range.end
}

pub open spec fn all_canonical(s: Seq<Dependency>) -> bool {
    forall|k: int| 0 <= k < s.len() ==> canonical(#[trigger] s[k])
}

/// Reading a range on a sheet: one cell when the range is one cell.
pub open spec fn dependency_on(id: SheetId, range: RangeRef) -> Dependency {
    if range.start == range.end {
        Dependency::Cell(CellAddr { sheet: id, cell: range.start })
    } else {
        Dependency::Range(RangeAddr { sheet: id, range })
    }
}

/// Everything a tree reads, in the order its references are written.
pub open spec fn reads_of<T>(e: ExprView, current: SheetId, book: Sheets<T>) -> Seq<Dependency>
    decreases e,
{
    match e {
        ExprView::Literal(_) => Seq::empty(),
        ExprView::Name { .. } => Seq::empty(),
        ExprView::Ref { sheet, target } => match target_range(target) {
            Some(range) => ref_sheets(sheet, current, book).map_values(
                |id: SheetId| dependency_on(id, range),
            ),
            None => Seq::empty(),
        },
        ExprView::Unary { operand, .. } => reads_of(*operand, current, book),
        ExprView::Percent(inner) => reads_of(*inner, current, book),
        ExprView::Binary { left, right, .. } => reads_of(*left, current, book) + reads_of(
            *right,
            current,
            book,
        ),
        ExprView::RangeOp { left, right } => reads_of(*left, current, book) + reads_of(
            *right,
            current,
            book,
        ),
        ExprView::Intersect { left, right } => reads_of(*left, current, book) + reads_of(
            *right,
            current,
            book,
        ),
        ExprView::Call { args, .. } => reads_of_list(args, current, book),
        ExprView::Union(parts) => reads_of_list(parts, current, book),
        ExprView::Array(rows) => reads_of_rows(rows, current, book),
    }
}

/// Everything a list of trees reads, in order.
pub open spec fn reads_of_list<T>(s: Seq<ExprView>, current: SheetId, book: Sheets<T>) -> Seq<Dependency>
    decreases s,
{
    if s.len() == 0 {
        Seq::empty()
    } else {
        reads_of_list(s.drop_last(), current, book) + reads_of(s.last(), current, book)
    }
}

/// Everything the rows of an array read, row by row.
pub open spec fn reads_of_rows<T>(s: Seq<Seq<ExprView>>, current: SheetId, book: Sheets<T>) -> Seq<
    Dependency,
>
    decreases s,
{
    if s.len() == 0 {
        Seq::empty()
    } else {
        reads_of_rows(s.drop_last(), current, book) + reads_of_list(s.last(), current, book)
    }
}

/// The sheets a written sheet part stands for.
fn sheets_of<T>(sheet: &Option<SheetRef>, current: SheetId, book: &Sheets<T>) -> (r: Vec<SheetId>)
    requires
        book.well_formed(),
    ensures
        r@ == ref_sheets(
            match sheet {
                Some(s) => Some(crate::parser::sheet_view(*s)),
                None => None,
            },
            current,
            *book,
        ),
{
    match sheet {
        None => {
            let mut v: Vec<SheetId> = Vec::new();
            v.push(current);
            assert(v@ =~= seq![current]);
            v
        },
        Some(SheetRef::One(name)) => {
            let mut v: Vec<SheetId> = Vec::new();
            match book.sheet_id(name.as_str()) {
                Some(id) => {
                    v.push(id);
                    assert(v@ =~= seq![id]);
                },
                None => {
                    assert(v@ =~= Seq::<SheetId>::empty());
                },
            }
            v
        },
        Some(SheetRef::Span { first, last }) => match book.sheets_between(first.as_str(), last.as_str()) {
            Some(v) => v,
            None => {
                let v: Vec<SheetId> = Vec::new();
                assert(v@ =~= Seq::<SheetId>::empty());
                v
            },
        },
    }
}

/// Append what a tree reads.
fn walk<T>(expr: &Expr, current: SheetId, book: &Sheets<T>, out: &mut Vec<Dependency>)
    requires
        book.well_formed(),
        all_canonical(old(out)@),
    ensures
        final(out)@ == old(out)@ + reads_of(expr_view(*expr), current, *book),
        all_canonical(final(out)@),
    decreases expr,
{
    match expr {
        Expr::Literal(_) => {
            assert(out@ =~= old(out)@ + Seq::<Dependency>::empty());
        },
        Expr::Name { .. } => {
            assert(out@ =~= old(out)@ + Seq::<Dependency>::empty());
        },
        Expr::Ref { sheet, target } => {
            let ids = sheets_of(sheet, current, book);
            let range = match range_of(target) {
                Some(range) => range,
                None => {
                    assert(out@ =~= old(out)@ + Seq::<Dependency>::empty());
                    return;
                },
            };
            let ghost start = out@;
            let mut i: usize = 0;
            while i < ids.len()
                invariant
                    i <= ids@.len(),
                    all_canonical(out@),
                    out@ == start + ids@.subrange(0, i as int).map_values(
                        |id: SheetId| dependency_on(id, range),
                    ),
                decreases ids.len() - i,
            {
                let id = ids[i];
                let d = if range.start == range.end {
                    Dependency::Cell(CellAddr::new(id, range.start))
                } else {
                    Dependency::Range(RangeAddr::new(id, range))
                };
                out.push(d);
                i = i + 1;
                assert(ids@.subrange(0, i as int).map_values(|id: SheetId| dependency_on(id, range))
                    =~= ids@.subrange(0, i - 1).map_values(|id: SheetId| dependency_on(id, range)).push(
                    d,
                ));
            }
            assert(ids@.subrange(0, ids@.len() as int) =~= ids@);
        },
        Expr::Unary { operand, .. } => {
            walk(operand, current, book, out);
        },
        Expr::Percent(inner) => {
            walk(inner, current, book, out);
        },
        Expr::Binary { left, right, .. } => {
            walk(left, current, book, out);
            walk(right, current, book, out);
            assert(out@ =~= old(out)@ + reads_of(expr_view(*expr), current, *book));
        },
        Expr::RangeOp { left, right } => {
            walk(left, current, book, out);
            walk(right, current, book, out);
            assert(out@ =~= old(out)@ + reads_of(expr_view(*expr), current, *book));
        },
        Expr::Intersect { left, right } => {
            walk(left, current, book, out);
            walk(right, current, book, out);
            assert(out@ =~= old(out)@ + reads_of(expr_view(*expr), current, *book));
        },
        Expr::Call { args, .. } => {
            walk_list(args, current, book, out);
        },
        Expr::Union(parts) => {
            walk_list(parts, current, book, out);
        },
        Expr::Array(rows) => {
            walk_rows(rows, current, book, out);
        },
    }
}

/// Append what each row of an array reads, row by row.
fn walk_rows<T>(rows: &Vec<Vec<Expr>>, current: SheetId, book: &Sheets<T>, out: &mut Vec<Dependency>)
    requires
        book.well_formed(),
        all_canonical(old(out)@),
    ensures
        final(out)@ == old(out)@ + reads_of_rows(rows_view(rows@), current, *book),
        all_canonical(final(out)@),
    decreases rows,
{
    let ghost start = out@;
    let mut i: usize = 0;
    while i < rows.len()
        invariant
            book.well_formed(),
            all_canonical(out@),
            i <= rows@.len(),
            out@ == start + reads_of_rows(rows_view(rows@.subrange(0, i as int)), current, *book),
        decreases rows.len() - i,
    {
        let ghost before = out@;
        walk_list(&rows[i], current, book, out);
        proof {
            let done = rows@.subrange(0, i + 1);
            assert(done.drop_last() =~= rows@.subrange(0, i as int));
            assert(done.last() == rows@[i as int]);
            let views = rows_view(done);
            assert(views.drop_last() == rows_view(rows@.subrange(0, i as int)));
            assert(views.last() == list_view(rows@[i as int]@));
            assert(out@ =~= start + reads_of_rows(views, current, *book));
        }
        i = i + 1;
    }
    assert(rows@.subrange(0, rows@.len() as int) =~= rows@);
}

/// Append what each tree of a list reads, in order.
fn walk_list<T>(list: &Vec<Expr>, current: SheetId, book: &Sheets<T>, out: &mut Vec<Dependency>)
    requires
        book.well_formed(),
        all_canonical(old(out)@),
    ensures
        final(out)@ == old(out)@ + reads_of_list(list_view(list@), current, *book),
        all_canonical(final(out)@),
    decreases list,
{
    let ghost start = out@;
    let mut i: usize = 0;
    while i < list.len()
        invariant
            book.well_formed(),
            all_canonical(out@),
            i <= list@.len(),
            out@ == start + reads_of_list(list_view(list@.subrange(0, i as int)), current, *book),
        decreases list.len() - i,
    {
        walk(&list[i], current, book, out);
        proof {
            let done = list@.subrange(0, i + 1);
            assert(done.drop_last() =~= list@.subrange(0, i as int));
            assert(done.last() == list@[i as int]);
            let views = list_view(done);
            assert(views.drop_last() == list_view(list@.subrange(0, i as int)));
            assert(views.last() == expr_view(list@[i as int]));
            assert(out@ =~= start + reads_of_list(views, current, *book));
        }
        i = i + 1;
    }
    assert(list@.subrange(0, list@.len() as int) =~= list@);
}

// ---------------------------------------------------------------------------
// Sorted, without repeats

/// The order dependencies are kept in: by sheet, then by the corners of
/// what they read, a cell counting as a range from itself to itself.
pub open spec fn dep_key(d: Dependency) -> (u32, u32, u32, u32, u32) {
    match d {
        Dependency::Cell(a) => (a.sheet.0, a.cell.row, a.cell.col, a.cell.row, a.cell.col),
        Dependency::Range(a) => (
            a.sheet.0,
            a.range.start.row,
            a.range.start.col,
            a.range.end.row,
            a.range.end.col,
        ),
    }
}

/// One key strictly before another, comparing number by number.
pub open spec fn key_before(a: (u32, u32, u32, u32, u32), b: (u32, u32, u32, u32, u32)) -> bool {
    a.0 < b.0 || (a.0 == b.0 && (a.1 < b.1 || (a.1 == b.1 && (a.2 < b.2 || (a.2 == b.2 && (a.3
        < b.3 || (a.3 == b.3 && a.4 < b.4)))))))
}

/// Strictly ascending, so without repeats.
pub open spec fn ascending_deps(s: Seq<Dependency>) -> bool {
    forall|i: int, j: int| 0 <= i < j < s.len() ==> key_before(dep_key(#[trigger] s[i]), dep_key(#[trigger] s[j]))
}

fn key_of(d: Dependency) -> (k: (u32, u32, u32, u32, u32))
    ensures
        k == dep_key(d),
{
    match d {
        Dependency::Cell(a) => (a.sheet.0, a.cell.row, a.cell.col, a.cell.row, a.cell.col),
        Dependency::Range(a) => (
            a.sheet.0,
            a.range.start.row,
            a.range.start.col,
            a.range.end.row,
            a.range.end.col,
        ),
    }
}

fn is_before(a: (u32, u32, u32, u32, u32), b: (u32, u32, u32, u32, u32)) -> (r: bool)
    ensures
        r == key_before(a, b),
{
    if a.0 != b.0 {
        return a.0 < b.0;
    }
    if a.1 != b.1 {
        return a.1 < b.1;
    }
    if a.2 != b.2 {
        return a.2 < b.2;
    }
    if a.3 != b.3 {
        return a.3 < b.3;
    }
    a.4 < b.4
}

proof fn lemma_key_before_transitive(a: (u32, u32, u32, u32, u32), b: (u32, u32, u32, u32, u32), c: (u32, u32, u32, u32, u32))
    requires
        key_before(a, b),
        key_before(b, c),
    ensures
        key_before(a, c),
{
}

/// Canonical dependencies with the same key are the same dependency.
proof fn lemma_key_decides(a: Dependency, b: Dependency)
    requires
        canonical(a),
        canonical(b),
        dep_key(a) == dep_key(b),
    ensures
        a == b,
{
    match (a, b) {
        (Dependency::Cell(x), Dependency::Cell(y)) => {
            assert(x.sheet == y.sheet && x.cell == y.cell);
        },
        (Dependency::Range(x), Dependency::Range(y)) => {
            assert(x.sheet == y.sheet && x.range.start == y.range.start && x.range.end == y.range.end);
        },
        (Dependency::Cell(x), Dependency::Range(y)) => {
            assert(y.range.start == y.range.end);
        },
        (Dependency::Range(x), Dependency::Cell(y)) => {
            assert(x.range.start == x.range.end);
        },
    }
}

/// Add a dependency to a sorted list without repeats, where it belongs.
fn insert_dependency(out: &mut Vec<Dependency>, d: Dependency)
    requires
        ascending_deps(old(out)@),
        all_canonical(old(out)@),
        canonical(d),
    ensures
        ascending_deps(final(out)@),
        all_canonical(final(out)@),
        forall|x: Dependency| final(out)@.contains(x) <==> (old(out)@.contains(x) || x == d),
{
    let key = key_of(d);
    let mut p: usize = 0;
    while p < out.len() && is_before(key_of(out[p]), key)
        invariant
            p <= out@.len(),
            key == dep_key(d),
            forall|k: int| 0 <= k < p ==> key_before(dep_key(#[trigger] out@[k]), key),
        decreases out.len() - p,
    {
        p = p + 1;
    }
    if p < out.len() && !is_before(key, key_of(out[p])) {
        proof {
            assert(dep_key(out@[p as int]) == key);
            lemma_key_decides(out@[p as int], d);
            assert forall|x: Dependency| out@.contains(x) <==> (old(out)@.contains(x) || x == d) by {
                if x == d {
                    assert(out@[p as int] == d);
                }
            }
        }
        return;
    }
    let ghost before = out@;
    proof {
        if p < before.len() {
            assert(!key_before(dep_key(before[p as int]), key));
            assert(dep_key(before[p as int]) != key);
            assert(key_before(key, dep_key(before[p as int])));
        }
    }
    out.insert(p, d);
    proof {
        assert(out@ == before.insert(p as int, d));
        assert forall|i: int, j: int| 0 <= i < j < out@.len() implies key_before(
            dep_key(#[trigger] out@[i]),
            dep_key(#[trigger] out@[j]),
        ) by {
            if j < p {
            } else if j == p {
                assert(out@[i] == before[i]);
            } else if i < p {
                assert(out@[j] == before[j - 1]);
                assert(key_before(dep_key(before[i]), key));
                if j - 1 > p {
                    assert(key_before(key, dep_key(before[p as int])));
                    lemma_key_before_transitive(key, dep_key(before[p as int]), dep_key(before[j - 1]));
                }
                lemma_key_before_transitive(dep_key(before[i]), key, dep_key(before[j - 1]));
            } else if i == p {
                assert(out@[j] == before[j - 1]);
                if j - 1 > p {
                    lemma_key_before_transitive(key, dep_key(before[p as int]), dep_key(before[j - 1]));
                }
            } else {
                assert(out@[i] == before[i - 1]);
                assert(out@[j] == before[j - 1]);
            }
        }
        assert forall|x: Dependency| out@.contains(x) <==> (before.contains(x) || x == d) by {
            if before.contains(x) {
                let k = choose|k: int| 0 <= k < before.len() && before[k] == x;
                if k < p {
                    assert(out@[k] == x);
                } else {
                    assert(out@[k + 1] == x);
                }
            }
            if x == d {
                assert(out@[p as int] == d);
            }
            if out@.contains(x) {
                let k = choose|k: int| 0 <= k < out@.len() && out@[k] == x;
                if k < p {
                    assert(before[k] == x);
                } else if k > p {
                    assert(before[k - 1] == x);
                }
            }
        }
    }
}

/// What a formula on sheet `current` reads, sorted and without repeats.
pub fn dependencies_of<T>(expr: &Expr, current: SheetId, book: &Sheets<T>) -> (r: Vec<Dependency>)
    requires
        book.well_formed(),
    ensures
        ascending_deps(r@),
        forall|d: Dependency| r@.contains(d) <==> reads_of(expr_view(*expr), current, *book).contains(d),
{
    let mut all: Vec<Dependency> = Vec::new();
    walk(expr, current, book, &mut all);
    assert(all@ =~= Seq::<Dependency>::empty() + reads_of(expr_view(*expr), current, *book));
    let mut out: Vec<Dependency> = Vec::new();
    let mut k: usize = 0;
    while k < all.len()
        invariant
            k <= all@.len(),
            all_canonical(all@),
            ascending_deps(out@),
            all_canonical(out@),
            forall|x: Dependency| out@.contains(x) <==> all@.subrange(0, k as int).contains(x),
        decreases all.len() - k,
    {
        let ghost before = out@;
        insert_dependency(&mut out, all[k]);
        proof {
            assert forall|x: Dependency| all@.subrange(0, k + 1).contains(x) <==> (all@.subrange(
                0,
                k as int,
            ).contains(x) || x == all@[k as int]) by {
                let done = all@.subrange(0, k + 1);
                if done.contains(x) {
                    let i = choose|i: int| 0 <= i < done.len() && done[i] == x;
                    if i < k {
                        assert(all@.subrange(0, k as int)[i] == x);
                    }
                }
                if all@.subrange(0, k as int).contains(x) {
                    let i = choose|i: int| 0 <= i < k && all@.subrange(0, k as int)[i] == x;
                    assert(done[i] == x);
                }
                if x == all@[k as int] {
                    assert(done[k as int] == x);
                }
            }
            assert forall|x: Dependency| out@.contains(x) <==> all@.subrange(0, k + 1).contains(x) by {
                assert(out@.contains(x) <==> (before.contains(x) || x == all@[k as int]));
                assert(before.contains(x) <==> all@.subrange(0, k as int).contains(x));
            }
        }
        k = k + 1;
    }
    assert(all@.subrange(0, all@.len() as int) =~= all@);
    out
}

} // verus!
