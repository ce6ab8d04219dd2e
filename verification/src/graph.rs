//! Which cells depend on which.
//!
//! Editing a cell has to find every formula that reads it, and has to do so
//! without asking every formula in the workbook. Single-cell reads get a plain
//! reverse index. Range reads are the interesting case: a formula reading
//! `A1:A100` must be found by an edit to any of those hundred cells, and
//! registering it under each one would be wasteful and wrong for a range that
//! covers a whole column.
//!
//! So ranges are bucketed into tiles of the grid, and an edit checks only the
//! tile it falls in. A range too wide to bucket sensibly, which in practice
//! means a whole column or row, goes on a short per-sheet list that is scanned
//! instead. One threshold, two paths, no special cases beyond that.
//!
//! Cells, tiles and sheets are keyed in the indexes by one integer each: the
//! sheet, the row and the column packed into 32 bits apiece.

use vstd::prelude::*;

use std::collections::{HashMap, HashSet};
use vstd::std_specs::iter::IteratorSpec;

use crate::ast::RefTarget;
use crate::coord::{CellAddr, CellRef, RangeAddr, RangeRef, SheetId};

verus! {

broadcast use {
    vstd::std_specs::hash::group_hash_axioms,
    vstd::std_specs::hash::axiom_u128_obeys_hash_table_key_model,
    vstd::std_specs::hash::axiom_random_state_builds_valid_hashers,
};

/// Side of a tile, in cells.
pub const TILE: u32 = 256;

/// A range covering more tiles than this is watched by the per-sheet list
/// instead of being registered in each one.
pub const MAX_TILES_PER_RANGE: u64 = 64;

/// One region of the grid that range watchers are bucketed into.
#[derive(Clone, Copy, PartialEq, Eq, Structural, Hash, Debug)]
pub struct Tile {
    pub sheet: SheetId,
    pub row: u32,
    pub col: u32,
}

/// The tile a cell falls in.
pub open spec fn tile_at(addr: CellAddr) -> Tile {
    Tile { sheet: addr.sheet, row: addr.cell.row / TILE, col: addr.cell.col / TILE }
}

pub fn tile_of(addr: CellAddr) -> (t: Tile)
    ensures
        t == tile_at(addr),
{
    Tile { sheet: addr.sheet, row: addr.cell.row / TILE, col: addr.cell.col / TILE }
}

/// What a formula reads.
#[derive(Clone, Copy, PartialEq, Eq, Structural, Hash, Debug)]
pub enum Dependency {
    Cell(CellAddr),
    Range(RangeAddr),
}

/// Whether reading `d` means reading the cell at `addr`.
pub open spec fn reads(d: Dependency, addr: CellAddr) -> bool {
    match d {
        Dependency::Cell(target) => target == addr,
        Dependency::Range(area) => area.holds(addr),
    }
}

// ---------------------------------------------------------------------------
// Keys.

/// Three 32-bit parts packed into one key, most significant first.
pub open spec fn pack(a: u32, b: u32, c: u32) -> u128 {
    ((a as u128) << 64u128) | ((b as u128) << 32u128) | (c as u128)
}

/// The key of a cell: its sheet, row and column.
pub open spec fn addr_key(a: CellAddr) -> u128 {
    pack(a.sheet.0, a.cell.row, a.cell.col)
}

/// The key of a tile: its sheet, tile row and tile column.
pub open spec fn tile_key(t: Tile) -> u128 {
    pack(t.sheet.0, t.row, t.col)
}

/// The key of a sheet.
pub open spec fn sheet_key(s: SheetId) -> u128 {
    s.0 as u128
}

/// The parts of a key.
pub open spec fn unpack(k: u128) -> (u32, u32, u32) {
    ((k >> 64u128) as u32, ((k >> 32u128) & 0xFFFF_FFFFu128) as u32, (k & 0xFFFF_FFFFu128) as u32)
}

/// The cell a key names.
pub open spec fn key_addr(k: u128) -> CellAddr {
    CellAddr { sheet: SheetId(unpack(k).0), cell: CellRef { row: unpack(k).1, col: unpack(k).2 } }
}

pub proof fn lemma_pack(a: u32, b: u32, c: u32)
    ensures
        unpack(pack(a, b, c)) == (a, b, c),
{
    assert(((((a as u128) << 64u128) | ((b as u128) << 32u128) | (c as u128)) >> 64u128) as u32
        == a) by (bit_vector);
    assert((((((a as u128) << 64u128) | ((b as u128) << 32u128) | (c as u128)) >> 32u128)
        & 0xFFFF_FFFFu128) as u32 == b) by (bit_vector);
    assert(((((a as u128) << 64u128) | ((b as u128) << 32u128) | (c as u128)) & 0xFFFF_FFFFu128)
        as u32 == c) by (bit_vector);
}

pub proof fn lemma_unpack(k: u128)
    requires
        k < 0x1_0000_0000_0000_0000_0000_0000,
    ensures
        pack(unpack(k).0, unpack(k).1, unpack(k).2) == k,
{
    assert((((((k >> 64u128) as u32) as u128) << 64u128) | (((((k >> 32u128) & 0xFFFF_FFFFu128)
        as u32) as u128) << 32u128) | (((k & 0xFFFF_FFFFu128) as u32) as u128)) == k)
        by (bit_vector)
        requires
            k < 0x1_0000_0000_0000_0000_0000_0000,
    ;
}

/// Every key is below two to the 96th.
pub proof fn lemma_pack_bound(a: u32, b: u32, c: u32)
    ensures
        pack(a, b, c) < 0x1_0000_0000_0000_0000_0000_0000,
{
    assert((((a as u128) << 64u128) | ((b as u128) << 32u128) | (c as u128))
        < 0x1_0000_0000_0000_0000_0000_0000u128) by (bit_vector);
}

/// Packing keeps the order of the parts: comparing keys compares sheets,
/// then rows, then columns.
pub proof fn lemma_pack_order(a: u32, b: u32, c: u32, x: u32, y: u32, z: u32)
    ensures
        (pack(a, b, c) < pack(x, y, z)) == (a < x || (a == x && (b < y || (b == y && c < z)))),
{
    assert(((((a as u128) << 64u128) | ((b as u128) << 32u128) | (c as u128)) < (((x as u128)
        << 64u128) | ((y as u128) << 32u128) | (z as u128))) == (a < x || (a == x && (b < y || (b
        == y && c < z))))) by (bit_vector);
}

pub proof fn lemma_addr_key(a: CellAddr)
    ensures
        key_addr(addr_key(a)) == a,
{
    lemma_pack(a.sheet.0, a.cell.row, a.cell.col);
}

pub proof fn lemma_key_addr(k: u128)
    requires
        k < 0x1_0000_0000_0000_0000_0000_0000,
    ensures
        addr_key(key_addr(k)) == k,
{
    lemma_unpack(k);
}

pub(crate) fn pack_key(a: u32, b: u32, c: u32) -> (k: u128)
    ensures
        k == pack(a, b, c),
{
    ((a as u128) << 64u128) | ((b as u128) << 32u128) | (c as u128)
}

pub(crate) fn key_of(a: CellAddr) -> (k: u128)
    ensures
        k == addr_key(a),
{
    pack_key(a.sheet.0, a.cell.row, a.cell.col)
}

fn addr_of_key(k: u128) -> (a: CellAddr)
    requires
        k < 0x1_0000_0000_0000_0000_0000_0000,
    ensures
        a == key_addr(k),
        addr_key(a) == k,
{
    proof {
        lemma_key_addr(k);
    }
    CellAddr {
        sheet: SheetId((k >> 64u128) as u32),
        cell: CellRef { row: ((k >> 32u128) & 0xFFFF_FFFFu128) as u32, col: (k & 0xFFFF_FFFFu128) as u32 },
    }
}

// ---------------------------------------------------------------------------
// Tiles.

/// The tile rows and columns a range spans, first to last.
pub open spec fn tile_span(area: RangeAddr) -> (u32, u32, u32, u32) {
    (
        area.range.start.row / TILE,
        area.range.end.row / TILE,
        area.range.start.col / TILE,
        area.range.end.col / TILE,
    )
}

/// Whether a range's corners are in order at the scale of tiles, which is
/// what counting its tiles needs.
pub open spec fn tile_ordered(area: RangeAddr) -> bool {
    let (r0, r1, c0, c1) = tile_span(area);
    r0 <= r1 && c0 <= c1
}

/// How many tiles a range covers.
pub open spec fn tile_count(area: RangeAddr) -> int {
    let (r0, r1, c0, c1) = tile_span(area);
    (r1 - r0 + 1) * (c1 - c0 + 1)
}

/// Whether a range is registered tile by tile rather than on its sheet's
/// list.
pub open spec fn bucketed(area: RangeAddr) -> bool {
    tile_count(area) <= MAX_TILES_PER_RANGE
}

/// Whether a range covers a tile.
pub open spec fn covers_tile(area: RangeAddr, t: Tile) -> bool {
    let (r0, r1, c0, c1) = tile_span(area);
    t.sheet == area.sheet && r0 <= t.row <= r1 && c0 <= t.col <= c1
}

/// The tiles of a range in reading order: the `i`-th is in tile row
/// `r0 + i / width` and tile column `c0 + i % width`.
pub open spec fn tile_list(area: RangeAddr) -> Seq<Tile> {
    let (r0, r1, c0, c1) = tile_span(area);
    let width = c1 - c0 + 1;
    Seq::new(
        tile_count(area) as nat,
        |i: int| Tile { sheet: area.sheet, row: (r0 + i / width) as u32, col: (c0 + i % width) as u32 },
    )
}

/// The tiles a range covers, or `None` when it covers too many to be worth
/// registering individually.
pub fn tiles_covering(area: RangeAddr) -> (r: Option<Vec<Tile>>)
    requires
        tile_ordered(area),
    ensures
        r is None <==> !bucketed(area),
        r matches Some(tiles) ==> {
            &&& tiles@.len() == tile_count(area)
            &&& forall|t: Tile| tiles@.contains(t) <==> covers_tile(area, t)
        },
{
    let range = area.range;
    let first_row = range.start.row / TILE;
    let last_row = range.end.row / TILE;
    let first_col = range.start.col / TILE;
    let last_col = range.end.col / TILE;
    let rows = (last_row - first_row + 1) as u64;
    let cols = (last_col - first_col + 1) as u64;
    assert(rows <= 0x100_0000 && cols <= 0x100_0000);
    assert(rows * cols <= 0x1_0000_0000_0000) by (nonlinear_arith)
        requires
            rows <= 0x100_0000,
            cols <= 0x100_0000,
    ;
    let count = rows * cols;
    if count > MAX_TILES_PER_RANGE {
        return None;
    }
    let mut tiles: Vec<Tile> = Vec::new();
    let width = cols;
    let mut row: u64 = first_row as u64;
    while row <= last_row as u64
        invariant
            first_row <= row <= last_row + 1,
            last_row == range.end.row / TILE,
            first_row == range.start.row / TILE,
            first_col <= last_col,
            first_col == range.start.col / TILE,
            last_col == range.end.col / TILE,
            width == last_col - first_col + 1,
            range == area.range,
            tiles@.len() == (row - first_row) * width,
            forall|t: Tile| tiles@.contains(t) <==> (covers_tile(area, t) && t.row < row),
        decreases last_row + 1 - row,
    {
        let mut col: u64 = first_col as u64;
        let ghost before = tiles@;
        while col <= last_col as u64
            invariant
                first_row <= row <= last_row,
                first_col <= col <= last_col + 1,
                first_col == range.start.col / TILE,
                last_col == range.end.col / TILE,
                range == area.range,
                last_row == range.end.row / TILE,
                first_row == range.start.row / TILE,
                tiles@.len() == before.len() + (col - first_col),
                forall|t: Tile| tiles@.contains(t) <==> (before.contains(t) || (t.sheet == area.sheet
                    && t.row == row && first_col <= t.col < col)),
            decreases last_col + 1 - col,
        {
            let t = Tile { sheet: area.sheet, row: row as u32, col: col as u32 };
            let ghost prior = tiles@;
            tiles.push(t);
            proof {
                assert forall|u: Tile| tiles@.contains(u) <==> (prior.contains(u) || u == t) by {
                    if tiles@.contains(u) {
                        let k = choose|k: int| 0 <= k < tiles@.len() && tiles@[k] == u;
                        if k < prior.len() {
                            assert(prior[k] == u);
                        }
                    }
                    if prior.contains(u) {
                        let k = choose|k: int| 0 <= k < prior.len() && prior[k] == u;
                        assert(tiles@[k] == u);
                    }
                    if u == t {
                        assert(tiles@[prior.len() as int] == u);
                    }
                }
            }
            col = col + 1;
        }
        proof {
            assert((row + 1 - first_row) * width == (row - first_row) * width + width) by (nonlinear_arith);
        }
        row = row + 1;
    }
    assert(tiles@.len() == tile_count(area)) by (nonlinear_arith)
        requires
            tiles@.len() == (row - first_row) * width,
            row == last_row + 1,
            width == last_col - first_col + 1,
            tile_count(area) == (last_row - first_row + 1) * (last_col - first_col + 1),
    ;
    Some(tiles)
}

/// The range a written reference reads, if it reads anything.
pub open spec fn target_range(target: RefTarget) -> Option<RangeRef> {
    match target {
        RefTarget::Cell(a1) => Some(RangeRef { start: a1.cell, end: a1.cell }),
        RefTarget::Range { start, end } => Some(
            RangeRef {
                start: CellRef {
                    row: if start.cell.row <= end.cell.row { start.cell.row } else { end.cell.row },
                    col: if start.cell.col <= end.cell.col { start.cell.col } else { end.cell.col },
                },
                end: CellRef {
                    row: if start.cell.row >= end.cell.row { start.cell.row } else { end.cell.row },
                    col: if start.cell.col >= end.cell.col { start.cell.col } else { end.cell.col },
                },
            },
        ),
        RefTarget::Columns { first, last } => Some(
            RangeRef {
                start: CellRef { row: 0, col: first.index },
                end: CellRef { row: crate::coord::MAX_ROW, col: last.index },
            },
        ),
        RefTarget::Rows { first, last } => Some(
            RangeRef {
                start: CellRef { row: first.index, col: 0 },
                end: CellRef { row: last.index, col: crate::coord::MAX_COL },
            },
        ),
        // A broken reference reads nothing.
        RefTarget::Invalid => None,
    }
}

/// The range a written reference reads covers exactly the cells it names: a
/// cell itself; every cell between a range's two corners, in either order;
/// every row of the columns from `first` to `last`; every column of the rows
/// from `first` to `last`. A broken reference reads nothing.
pub proof fn lemma_a_reference_reads_what_it_names(target: RefTarget, c: CellRef)
    requires
        c.row <= crate::coord::MAX_ROW,
        c.col <= crate::coord::MAX_COL,
    ensures
        target is Invalid <==> target_range(target) is None,
        match target {
            RefTarget::Cell(a1) => target_range(target)->0.covers(c) <==> c == a1.cell,
            RefTarget::Range { start, end } => target_range(target)->0.covers(c) <==> {
                &&& (start.cell.row <= c.row <= end.cell.row || end.cell.row <= c.row <= start.cell.row)
                &&& (start.cell.col <= c.col <= end.cell.col || end.cell.col <= c.col <= start.cell.col)
            },
            RefTarget::Columns { first, last } => target_range(target)->0.covers(c) <==> first.index <= c.col
                <= last.index,
            RefTarget::Rows { first, last } => target_range(target)->0.covers(c) <==> first.index <= c.row
                <= last.index,
            RefTarget::Invalid => true,
        },
{
}

pub fn range_of(target: &RefTarget) -> (r: Option<RangeRef>)
    ensures
        r == target_range(*target),
{
    match target {
        RefTarget::Cell(a1) => Some(RangeRef::single(a1.cell)),
        RefTarget::Range { start, end } => Some(RangeRef::new(start.cell, end.cell)),
        RefTarget::Columns { first, last } => Some(RangeRef::whole_columns(first.index, last.index)),
        RefTarget::Rows { first, last } => Some(RangeRef::whole_rows(first.index, last.index)),
        RefTarget::Invalid => None,
    }
}

// ---------------------------------------------------------------------------
// The indexes, as values.

/// Keys below this are the keys of cells and tiles.
pub open spec fn key_limit() -> u128 {
    0x1_0000_0000_0000_0000_0000_0000
}

/// The tile a key names.
pub open spec fn key_tile(k: u128) -> Tile {
    Tile { sheet: SheetId(unpack(k).0), row: unpack(k).1, col: unpack(k).2 }
}

/// What a map of formula keys to dependency lists says each one reads.
pub open spec fn deps_at(p: Map<u128, Vec<Dependency>>, k: u128) -> Seq<Dependency> {
    if p.contains_key(k) {
        p[k]@
    } else {
        Seq::empty()
    }
}

/// The formula keys watching one key.
pub open spec fn set_at(m: Map<u128, HashSet<u128>>, k: u128) -> Set<u128> {
    if m.contains_key(k) {
        m[k]@
    } else {
        Set::empty()
    }
}

/// The range watchers registered under one key.
pub open spec fn items_at(m: Map<u128, Vec<(RangeAddr, CellAddr)>>, k: u128) -> Seq<
    (RangeAddr, CellAddr),
> {
    if m.contains_key(k) {
        m[k]@
    } else {
        Seq::empty()
    }
}

/// The cell index agrees with what each formula reads: a formula is under
/// a cell exactly when it reads that single cell.
pub open spec fn cell_index(has: spec_fn(u128, Dependency) -> bool, cw: Map<u128, HashSet<u128>>) -> bool {
    forall|tk: u128, fk: u128|
        #![trigger set_at(cw, tk).contains(fk)]
        set_at(cw, tk).contains(fk) <==> (tk < key_limit() && has(fk, Dependency::Cell(key_addr(tk))))
}

/// Where a range watcher belongs in the tile index.
pub open spec fn in_tile(has: spec_fn(u128, Dependency) -> bool, tk: u128, item: (RangeAddr, CellAddr)) -> bool {
    &&& tk < key_limit()
    &&& has(addr_key(item.1), Dependency::Range(item.0))
    &&& bucketed(item.0)
    &&& covers_tile(item.0, key_tile(tk))
}

/// The tile index agrees with what each formula reads.
pub open spec fn tile_index(
    has: spec_fn(u128, Dependency) -> bool,
    tw: Map<u128, Vec<(RangeAddr, CellAddr)>>,
) -> bool {
    forall|tk: u128, item: (RangeAddr, CellAddr)|
        #![trigger items_at(tw, tk).contains(item)]
        items_at(tw, tk).contains(item) <==> in_tile(has, tk, item)
}

/// Where a range watcher belongs in the per-sheet index.
pub open spec fn in_wide(has: spec_fn(u128, Dependency) -> bool, sk: u128, item: (RangeAddr, CellAddr)) -> bool {
    &&& has(addr_key(item.1), Dependency::Range(item.0))
    &&& !bucketed(item.0)
    &&& sk == sheet_key(item.0.sheet)
}

/// The per-sheet index agrees with what each formula reads.
pub open spec fn wide_index(
    has: spec_fn(u128, Dependency) -> bool,
    ww: Map<u128, Vec<(RangeAddr, CellAddr)>>,
) -> bool {
    forall|sk: u128, item: (RangeAddr, CellAddr)|
        #![trigger items_at(ww, sk).contains(item)]
        items_at(ww, sk).contains(item) <==> in_wide(has, sk, item)
}

/// No index keeps an empty bucket.
pub open spec fn no_empty_sets(m: Map<u128, HashSet<u128>>) -> bool {
    forall|k: u128| #[trigger] m.contains_key(k) ==> !m[k]@.is_empty()
}

pub open spec fn no_empty_lists(m: Map<u128, Vec<(RangeAddr, CellAddr)>>) -> bool {
    forall|k: u128| #[trigger] m.contains_key(k) ==> m[k]@.len() > 0
}

/// What a map of dependency lists says each formula reads.
pub open spec fn reading(p: Map<u128, Vec<Dependency>>) -> spec_fn(u128, Dependency) -> bool {
    |k: u128, d: Dependency| deps_at(p, k).contains(d)
}

/// A reference whose tiles can be counted.
pub open spec fn countable(d: Dependency) -> bool {
    d matches Dependency::Range(area) ==> tile_ordered(area)
}

pub struct DependencyGraph {
    /// What each formula cell reads, kept so its edges can be withdrawn when
    /// the formula changes.
    precedents: HashMap<u128, Vec<Dependency>>,
    /// Formulas that read one particular cell.
    cell_watchers: HashMap<u128, HashSet<u128>>,
    /// Formulas that read a range, bucketed by the tiles it covers.
    tile_watchers: HashMap<u128, Vec<(RangeAddr, CellAddr)>>,
    /// Formulas reading a range too wide to bucket, by sheet.
    wide_watchers: HashMap<u128, Vec<(RangeAddr, CellAddr)>>,
}

impl DependencyGraph {
    /// What each formula reads, by the key of the formula's cell.
    pub closed spec fn formulas(&self) -> Map<u128, Seq<Dependency>> {
        Map::new(|k: u128| self.precedents@.contains_key(k), |k: u128| self.precedents@[k]@)
    }

    /// The indexes agree with what each formula reads.
    pub closed spec fn well_formed(&self) -> bool {
        let has = reading(self.precedents@);
        &&& forall|k: u128| #[trigger] self.precedents@.contains_key(k) ==> k < key_limit()
            && self.precedents@[k]@.len() > 0
            && (forall|i: int| 0 <= i < self.precedents@[k]@.len() ==> countable(
                #[trigger] self.precedents@[k]@[i],
            ))
        &&& cell_index(has, self.cell_watchers@)
        &&& tile_index(has, self.tile_watchers@)
        &&& wide_index(has, self.wide_watchers@)
        &&& no_empty_sets(self.cell_watchers@)
        &&& no_empty_lists(self.tile_watchers@)
        &&& no_empty_lists(self.wide_watchers@)
    }
}

// ---------------------------------------------------------------------------
// Bucket edits.

fn set_add(m: &mut HashMap<u128, HashSet<u128>>, k: u128, v: u128)
    requires
        no_empty_sets(old(m)@),
    ensures
        no_empty_sets(final(m)@),
        forall|j: u128| #[trigger]
            set_at(final(m)@, j) == if j == k {
                set_at(old(m)@, k).insert(v)
            } else {
                set_at(old(m)@, j)
            },
{
    let mut bucket = match m.remove(&k) {
        Some(b) => b,
        None => HashSet::new(),
    };
    bucket.insert(v);
    m.insert(k, bucket);
    proof {
        assert(!final(m)@[k]@.is_empty()) by {
            assert(final(m)@[k]@.contains(v));
        }
    }
}

fn set_remove(m: &mut HashMap<u128, HashSet<u128>>, k: u128, v: u128)
    requires
        no_empty_sets(old(m)@),
    ensures
        no_empty_sets(final(m)@),
        forall|j: u128| #[trigger]
            set_at(final(m)@, j) == if j == k {
                set_at(old(m)@, k).remove(v)
            } else {
                set_at(old(m)@, j)
            },
{
    match m.remove(&k) {
        Some(mut bucket) => {
            bucket.remove(&v);
            if !bucket.is_empty() {
                m.insert(k, bucket);
            }
        },
        None => {
            assert(Set::<u128>::empty().remove(v) =~= Set::<u128>::empty());
        },
    }
}

fn items_push(m: &mut HashMap<u128, Vec<(RangeAddr, CellAddr)>>, k: u128, item: (RangeAddr, CellAddr))
    requires
        no_empty_lists(old(m)@),
    ensures
        no_empty_lists(final(m)@),
        forall|j: u128, x: (RangeAddr, CellAddr)| #[trigger]
            items_at(final(m)@, j).contains(x) <==> (items_at(old(m)@, j).contains(x) || (j == k && x
                == item)),
{
    let mut bucket = match m.remove(&k) {
        Some(b) => b,
        None => Vec::new(),
    };
    let ghost before = bucket@;
    bucket.push(item);
    m.insert(k, bucket);
    proof {
        assert forall|j: u128, x: (RangeAddr, CellAddr)| #[trigger]
            items_at(final(m)@, j).contains(x) <==> (items_at(old(m)@, j).contains(x) || (j == k && x
                == item)) by {
            if j == k {
                let now = final(m)@[k]@;
                assert(now == before.push(item));
                assert(before == items_at(old(m)@, k));
                if now.contains(x) {
                    let i = choose|i: int| 0 <= i < now.len() && now[i] == x;
                    if i < before.len() {
                        assert(before[i] == x);
                    }
                }
                if before.contains(x) {
                    let i = choose|i: int| 0 <= i < before.len() && before[i] == x;
                    assert(now[i] == x);
                }
                if x == item {
                    assert(now[before.len() as int] == x);
                }
            }
        }
    }
}

fn items_remove(m: &mut HashMap<u128, Vec<(RangeAddr, CellAddr)>>, k: u128, item: (RangeAddr, CellAddr))
    requires
        no_empty_lists(old(m)@),
    ensures
        no_empty_lists(final(m)@),
        forall|j: u128, x: (RangeAddr, CellAddr)| #[trigger]
            items_at(final(m)@, j).contains(x) <==> (items_at(old(m)@, j).contains(x) && !(j == k && x
                == item)),
{
    match m.remove(&k) {
        Some(bucket) => {
            let mut kept: Vec<(RangeAddr, CellAddr)> = Vec::new();
            let mut i: usize = 0;
            while i < bucket.len()
                invariant
                    i <= bucket@.len(),
                    forall|x: (RangeAddr, CellAddr)| #[trigger] kept@.contains(x) <==> (exists|q: int|
                        0 <= q < i && bucket@[q] == x) && x != item,
                decreases bucket.len() - i,
            {
                let entry = bucket[i];
                let ghost prior = kept@;
                if !(entry.0 == item.0 && entry.1 == item.1) {
                    kept.push(entry);
                }
                proof {
                    assert forall|x: (RangeAddr, CellAddr)| #[trigger] kept@.contains(x) <==> (exists|q: int|
                        0 <= q < i + 1 && bucket@[q] == x) && x != item by {
                        if kept@.contains(x) {
                            let w = choose|w: int| 0 <= w < kept@.len() && kept@[w] == x;
                            if w < prior.len() {
                                assert(prior.contains(x));
                            } else {
                                assert(x == entry);
                            }
                        }
                        if (exists|q: int| 0 <= q < i + 1 && bucket@[q] == x) && x != item {
                            let q = choose|q: int| 0 <= q < i + 1 && bucket@[q] == x;
                            if q < i {
                                assert(prior.contains(x));
                                let w = choose|w: int| 0 <= w < prior.len() && prior[w] == x;
                                assert(kept@[w] == x);
                            } else {
                                assert(kept@[kept@.len() - 1] == x);
                            }
                        }
                    }
                }
                i = i + 1;
            }
            proof {
                assert forall|x: (RangeAddr, CellAddr)| bucket@.contains(x) <==> (exists|q: int|
                    0 <= q < bucket@.len() && bucket@[q] == x) by {}
            }
            let ghost kept_view = kept@;
            let ghost nonempty = kept.len() > 0;
            if kept.len() > 0 {
                m.insert(k, kept);
            }
            proof {
                assert(bucket@ == items_at(old(m)@, k));
                assert forall|j: u128, x: (RangeAddr, CellAddr)| #[trigger]
                    items_at(m@, j).contains(x) <==> (items_at(old(m)@, j).contains(x) && !(j == k
                        && x == item)) by {
                    if j == k {
                        if nonempty {
                            assert(items_at(m@, k) == kept_view);
                        } else {
                            assert(!kept_view.contains(x));
                            assert(items_at(m@, k) == Seq::<(RangeAddr, CellAddr)>::empty());
                        }
                    } else {
                        assert(items_at(m@, j) == items_at(old(m)@, j));
                    }
                }
            }
        },
        None => {},
    }
}

/// Whether one of the tiles has a key.
pub open spec fn in_tiles(tiles: Seq<Tile>, tk: u128) -> bool {
    exists|q: int| 0 <= q < tiles.len() && tile_key(#[trigger] tiles[q]) == tk
}

proof fn lemma_tile_keys(area: RangeAddr, tiles: Seq<Tile>)
    requires
        forall|t: Tile| tiles.contains(t) <==> covers_tile(area, t),
    ensures
        forall|tk: u128| #[trigger] in_tiles(tiles, tk) <==> (tk < key_limit() && covers_tile(area, key_tile(tk))),
{
    assert forall|tk: u128| #[trigger] in_tiles(tiles, tk) <==> (tk < key_limit() && covers_tile(area, key_tile(tk))) by {
        if in_tiles(tiles, tk) {
            let q = choose|q: int| 0 <= q < tiles.len() && tile_key(#[trigger] tiles[q]) == tk;
            let t = tiles[q];
            lemma_pack_bound(t.sheet.0, t.row, t.col);
            lemma_pack(t.sheet.0, t.row, t.col);
            assert(key_tile(tk) == t);
            assert(tiles.contains(t));
        }
        if tk < key_limit() && covers_tile(area, key_tile(tk)) {
            assert(tiles.contains(key_tile(tk)));
            let q = choose|q: int| 0 <= q < tiles.len() && tiles[q] == key_tile(tk);
            lemma_unpack(tk);
            assert(tile_key(tiles[q]) == tk);
        }
    }
}

fn tile_key_of(t: Tile) -> (k: u128)
    ensures
        k == tile_key(t),
{
    pack_key(t.sheet.0, t.row, t.col)
}

/// Register a watcher under each of some tiles.
fn tiles_push(m: &mut HashMap<u128, Vec<(RangeAddr, CellAddr)>>, tiles: &Vec<Tile>, item: (RangeAddr, CellAddr))
    requires
        no_empty_lists(old(m)@),
    ensures
        no_empty_lists(final(m)@),
        forall|j: u128, x: (RangeAddr, CellAddr)| #[trigger]
            items_at(final(m)@, j).contains(x) <==> (items_at(old(m)@, j).contains(x) || (x == item
                && in_tiles(tiles@, j))),
{
    let mut q: usize = 0;
    while q < tiles.len()
        invariant
            q <= tiles@.len(),
            no_empty_lists(m@),
            forall|j: u128, x: (RangeAddr, CellAddr)| #[trigger]
                items_at(m@, j).contains(x) <==> (items_at(old(m)@, j).contains(x) || (x == item
                    && in_tiles(tiles@.take(q as int), j))),
        decreases tiles.len() - q,
    {
        let ghost before = m@;
        let k = tile_key_of(tiles[q]);
        items_push(m, k, item);
        proof {
            assert forall|j: u128| #[trigger] in_tiles(tiles@.take(q + 1), j) <==> (in_tiles(tiles@.take(q as int), j) || j == k) by {
                if in_tiles(tiles@.take(q + 1), j) {
                    let w = choose|w: int| 0 <= w < q + 1 && tile_key(#[trigger] tiles@.take(q + 1)[w]) == j;
                    if w < q {
                        assert(tiles@.take(q as int)[w] == tiles@.take(q + 1)[w]);
                    }
                }
                if in_tiles(tiles@.take(q as int), j) {
                    let w = choose|w: int| 0 <= w < q && tile_key(#[trigger] tiles@.take(q as int)[w]) == j;
                    assert(tiles@.take(q + 1)[w] == tiles@.take(q as int)[w]);
                }
                if j == k {
                    assert(tiles@.take(q + 1)[q as int] == tiles@[q as int]);
                }
            }
        }
        q = q + 1;
    }
    assert(tiles@.take(tiles@.len() as int) =~= tiles@);
}

/// Withdraw a watcher from each of some tiles.
fn tiles_remove(m: &mut HashMap<u128, Vec<(RangeAddr, CellAddr)>>, tiles: &Vec<Tile>, item: (RangeAddr, CellAddr))
    requires
        no_empty_lists(old(m)@),
    ensures
        no_empty_lists(final(m)@),
        forall|j: u128, x: (RangeAddr, CellAddr)| #[trigger]
            items_at(final(m)@, j).contains(x) <==> (items_at(old(m)@, j).contains(x) && !(x == item
                && in_tiles(tiles@, j))),
{
    let mut q: usize = 0;
    while q < tiles.len()
        invariant
            q <= tiles@.len(),
            no_empty_lists(m@),
            forall|j: u128, x: (RangeAddr, CellAddr)| #[trigger]
                items_at(m@, j).contains(x) <==> (items_at(old(m)@, j).contains(x) && !(x == item
                    && in_tiles(tiles@.take(q as int), j))),
        decreases tiles.len() - q,
    {
        let k = tile_key_of(tiles[q]);
        items_remove(m, k, item);
        proof {
            assert forall|j: u128| #[trigger] in_tiles(tiles@.take(q + 1), j) <==> (in_tiles(tiles@.take(q as int), j) || j == k) by {
                if in_tiles(tiles@.take(q + 1), j) {
                    let w = choose|w: int| 0 <= w < q + 1 && tile_key(#[trigger] tiles@.take(q + 1)[w]) == j;
                    if w < q {
                        assert(tiles@.take(q as int)[w] == tiles@.take(q + 1)[w]);
                    }
                }
                if in_tiles(tiles@.take(q as int), j) {
                    let w = choose|w: int| 0 <= w < q && tile_key(#[trigger] tiles@.take(q as int)[w]) == j;
                    assert(tiles@.take(q + 1)[w] == tiles@.take(q as int)[w]);
                }
                if j == k {
                    assert(tiles@.take(q + 1)[q as int] == tiles@[q as int]);
                }
            }
        }
        q = q + 1;
    }
    assert(tiles@.take(tiles@.len() as int) =~= tiles@);
}

/// The indexes only ask what each formula reads, so two answers that agree
/// everywhere are interchangeable.
proof fn lemma_same_reading(
    a: spec_fn(u128, Dependency) -> bool,
    b: spec_fn(u128, Dependency) -> bool,
    cw: Map<u128, HashSet<u128>>,
    tw: Map<u128, Vec<(RangeAddr, CellAddr)>>,
    ww: Map<u128, Vec<(RangeAddr, CellAddr)>>,
)
    requires
        forall|k: u128, d: Dependency| #[trigger] a(k, d) == b(k, d),
        cell_index(a, cw),
        tile_index(a, tw),
        wide_index(a, ww),
    ensures
        cell_index(b, cw),
        tile_index(b, tw),
        wide_index(b, ww),
{
    assert forall|tk: u128, fk: u128| #[trigger] set_at(cw, tk).contains(fk) <==> (tk < key_limit() && b(fk, Dependency::Cell(key_addr(tk)))) by {
        assert(a(fk, Dependency::Cell(key_addr(tk))) == b(fk, Dependency::Cell(key_addr(tk))));
    }
    assert forall|tk: u128, item: (RangeAddr, CellAddr)| #[trigger] items_at(tw, tk).contains(item) <==> in_tile(b, tk, item) by {
        assert(a(addr_key(item.1), Dependency::Range(item.0)) == b(addr_key(item.1), Dependency::Range(item.0)));
    }
    assert forall|sk: u128, item: (RangeAddr, CellAddr)| #[trigger] items_at(ww, sk).contains(item) <==> in_wide(b, sk, item) by {
        assert(a(addr_key(item.1), Dependency::Range(item.0)) == b(addr_key(item.1), Dependency::Range(item.0)));
    }
}

/// A formula's reads while its old ones are being withdrawn: everything in
/// `previous` not among the first `i`.
pub open spec fn withdrawing(p: Map<u128, Vec<Dependency>>, fk: u128, previous: Seq<Dependency>, i: int) -> spec_fn(
    u128,
    Dependency,
) -> bool {
    |k: u128, d: Dependency|
        if k == fk {
            previous.contains(d) && !previous.take(i).contains(d)
        } else {
            deps_at(p, k).contains(d)
        }
}

/// A formula's reads while its new ones are being registered: the first
/// `i` of `deps`.
pub open spec fn registering(p: Map<u128, Vec<Dependency>>, fk: u128, deps: Seq<Dependency>, i: int) -> spec_fn(
    u128,
    Dependency,
) -> bool {
    |k: u128, d: Dependency|
        if k == fk {
            deps.take(i).contains(d)
        } else {
            deps_at(p, k).contains(d)
        }
}

proof fn lemma_take_step(s: Seq<Dependency>, i: int, d: Dependency)
    requires
        0 <= i < s.len(),
    ensures
        s.take(i + 1).contains(d) <==> (s.take(i).contains(d) || d == s[i]),
{
    if s.take(i + 1).contains(d) {
        let w = choose|w: int| 0 <= w < i + 1 && #[trigger] s.take(i + 1)[w] == d;
        if w < i {
            assert(s.take(i)[w] == d);
        }
    }
    if s.take(i).contains(d) {
        let w = choose|w: int| 0 <= w < i && #[trigger] s.take(i)[w] == d;
        assert(s.take(i + 1)[w] == d);
    }
    if d == s[i] {
        assert(s.take(i + 1)[i] == d);
    }
}

pub(crate) proof fn lemma_keys_match(a: CellAddr, b: CellAddr)
    ensures
        (addr_key(a) == addr_key(b)) == (a == b),
{
    lemma_addr_key(a);
    lemma_addr_key(b);
}

proof fn lemma_cell_key(tk: u128, t: CellAddr)
    requires
        tk < key_limit(),
    ensures
        (key_addr(tk) == t) == (tk == addr_key(t)),
{
    lemma_key_addr(tk);
    lemma_addr_key(t);
}

impl DependencyGraph {
    /// Take one reference of a formula out of the indexes.
    #[verifier::rlimit(40)]
    fn withdraw(
        &mut self,
        formula: CellAddr,
        d: Dependency,
        Ghost(h): Ghost<spec_fn(u128, Dependency) -> bool>,
        Ghost(h2): Ghost<spec_fn(u128, Dependency) -> bool>,
    )
        requires
            cell_index(h, old(self).cell_watchers@),
            tile_index(h, old(self).tile_watchers@),
            wide_index(h, old(self).wide_watchers@),
            no_empty_sets(old(self).cell_watchers@),
            no_empty_lists(old(self).tile_watchers@),
            no_empty_lists(old(self).wide_watchers@),
            countable(d),
            forall|k: u128, e: Dependency| #[trigger] h2(k, e) == (h(k, e) && !(k == addr_key(formula) && e == d)),
        ensures
            cell_index(h2, final(self).cell_watchers@),
            tile_index(h2, final(self).tile_watchers@),
            wide_index(h2, final(self).wide_watchers@),
            no_empty_sets(final(self).cell_watchers@),
            no_empty_lists(final(self).tile_watchers@),
            no_empty_lists(final(self).wide_watchers@),
            final(self).precedents == old(self).precedents,
    {
        let fk = key_of(formula);
        match d {
            Dependency::Cell(target) => {
                let tk = key_of(target);
                set_remove(&mut self.cell_watchers, tk, fk);
                proof {
                    assert forall|j: u128, x: u128| #[trigger] set_at(self.cell_watchers@, j).contains(x) <==> (j < key_limit() && h2(x, Dependency::Cell(key_addr(j)))) by {
                        if j < key_limit() {
                            lemma_cell_key(j, target);
                        }
                        assert(set_at(old(self).cell_watchers@, j).contains(x) <==> (j < key_limit() && h(x, Dependency::Cell(key_addr(j)))));
                    }
                    assert forall|j: u128, x: (RangeAddr, CellAddr)| #[trigger] items_at(self.tile_watchers@, j).contains(x) <==> in_tile(h2, j, x) by {
                        assert(h2(addr_key(x.1), Dependency::Range(x.0)) == h(addr_key(x.1), Dependency::Range(x.0)));
                    }
                    assert forall|j: u128, x: (RangeAddr, CellAddr)| #[trigger] items_at(self.wide_watchers@, j).contains(x) <==> in_wide(h2, j, x) by {
                        assert(h2(addr_key(x.1), Dependency::Range(x.0)) == h(addr_key(x.1), Dependency::Range(x.0)));
                    }
                }
            },
            Dependency::Range(area) => {
                let item = (area, formula);
                match tiles_covering(area) {
                    Some(tiles) => {
                        proof {
                            lemma_tile_keys(area, tiles@);
                        }
                        tiles_remove(&mut self.tile_watchers, &tiles, item);
                        proof {
                            assert forall|j: u128, x: (RangeAddr, CellAddr)| #[trigger] items_at(self.tile_watchers@, j).contains(x) <==> in_tile(h2, j, x) by {
                                lemma_keys_match(x.1, formula);
                                assert(items_at(old(self).tile_watchers@, j).contains(x) <==> in_tile(h, j, x));
                                if x == item {
                                    assert(in_tiles(tiles@, j) <==> (j < key_limit() && covers_tile(area, key_tile(j))));
                                }
                            }
                            assert forall|j: u128, x: u128| #[trigger] set_at(self.cell_watchers@, j).contains(x) <==> (j < key_limit() && h2(x, Dependency::Cell(key_addr(j)))) by {
                                assert(set_at(old(self).cell_watchers@, j).contains(x) <==> (j < key_limit() && h(x, Dependency::Cell(key_addr(j)))));
                            }
                            assert forall|j: u128, x: (RangeAddr, CellAddr)| #[trigger] items_at(self.wide_watchers@, j).contains(x) <==> in_wide(h2, j, x) by {
                                assert(items_at(old(self).wide_watchers@, j).contains(x) <==> in_wide(h, j, x));
                            }
                        }
                    },
                    None => {
                        let sk = area.sheet.0 as u128;
                        items_remove(&mut self.wide_watchers, sk, item);
                        proof {
                            assert forall|j: u128, x: (RangeAddr, CellAddr)| #[trigger] items_at(self.wide_watchers@, j).contains(x) <==> in_wide(h2, j, x) by {
                                lemma_keys_match(x.1, formula);
                                assert(items_at(old(self).wide_watchers@, j).contains(x) <==> in_wide(h, j, x));
                            }
                            assert forall|j: u128, x: u128| #[trigger] set_at(self.cell_watchers@, j).contains(x) <==> (j < key_limit() && h2(x, Dependency::Cell(key_addr(j)))) by {
                                assert(set_at(old(self).cell_watchers@, j).contains(x) <==> (j < key_limit() && h(x, Dependency::Cell(key_addr(j)))));
                            }
                            assert forall|j: u128, x: (RangeAddr, CellAddr)| #[trigger] items_at(self.tile_watchers@, j).contains(x) <==> in_tile(h2, j, x) by {
                                assert(items_at(old(self).tile_watchers@, j).contains(x) <==> in_tile(h, j, x));
                            }
                        }
                    },
                }
            },
        }
    }

    /// Put one reference of a formula into the indexes.
    #[verifier::rlimit(40)]
    fn register(
        &mut self,
        formula: CellAddr,
        d: Dependency,
        Ghost(h): Ghost<spec_fn(u128, Dependency) -> bool>,
        Ghost(h2): Ghost<spec_fn(u128, Dependency) -> bool>,
    )
        requires
            cell_index(h, old(self).cell_watchers@),
            tile_index(h, old(self).tile_watchers@),
            wide_index(h, old(self).wide_watchers@),
            no_empty_sets(old(self).cell_watchers@),
            no_empty_lists(old(self).tile_watchers@),
            no_empty_lists(old(self).wide_watchers@),
            countable(d),
            forall|k: u128, e: Dependency| #[trigger] h2(k, e) == (h(k, e) || (k == addr_key(formula) && e == d)),
        ensures
            cell_index(h2, final(self).cell_watchers@),
            tile_index(h2, final(self).tile_watchers@),
            wide_index(h2, final(self).wide_watchers@),
            no_empty_sets(final(self).cell_watchers@),
            no_empty_lists(final(self).tile_watchers@),
            no_empty_lists(final(self).wide_watchers@),
            final(self).precedents == old(self).precedents,
    {
        let fk = key_of(formula);
        match d {
            Dependency::Cell(target) => {
                let tk = key_of(target);
                set_add(&mut self.cell_watchers, tk, fk);
                proof {
                    lemma_pack_bound(target.sheet.0, target.cell.row, target.cell.col);
                    assert forall|j: u128, x: u128| #[trigger] set_at(self.cell_watchers@, j).contains(x) <==> (j < key_limit() && h2(x, Dependency::Cell(key_addr(j)))) by {
                        if j < key_limit() {
                            lemma_cell_key(j, target);
                        }
                        assert(set_at(old(self).cell_watchers@, j).contains(x) <==> (j < key_limit() && h(x, Dependency::Cell(key_addr(j)))));
                    }
                    assert forall|j: u128, x: (RangeAddr, CellAddr)| #[trigger] items_at(self.tile_watchers@, j).contains(x) <==> in_tile(h2, j, x) by {
                        assert(h2(addr_key(x.1), Dependency::Range(x.0)) == h(addr_key(x.1), Dependency::Range(x.0)));
                    }
                    assert forall|j: u128, x: (RangeAddr, CellAddr)| #[trigger] items_at(self.wide_watchers@, j).contains(x) <==> in_wide(h2, j, x) by {
                        assert(h2(addr_key(x.1), Dependency::Range(x.0)) == h(addr_key(x.1), Dependency::Range(x.0)));
                    }
                }
            },
            Dependency::Range(area) => {
                let item = (area, formula);
                match tiles_covering(area) {
                    Some(tiles) => {
                        proof {
                            lemma_tile_keys(area, tiles@);
                        }
                        tiles_push(&mut self.tile_watchers, &tiles, item);
                        proof {
                            assert forall|j: u128, x: (RangeAddr, CellAddr)| #[trigger] items_at(self.tile_watchers@, j).contains(x) <==> in_tile(h2, j, x) by {
                                lemma_keys_match(x.1, formula);
                                assert(items_at(old(self).tile_watchers@, j).contains(x) <==> in_tile(h, j, x));
                                if x == item {
                                    assert(in_tiles(tiles@, j) <==> (j < key_limit() && covers_tile(area, key_tile(j))));
                                }
                            }
                            assert forall|j: u128, x: u128| #[trigger] set_at(self.cell_watchers@, j).contains(x) <==> (j < key_limit() && h2(x, Dependency::Cell(key_addr(j)))) by {
                                assert(set_at(old(self).cell_watchers@, j).contains(x) <==> (j < key_limit() && h(x, Dependency::Cell(key_addr(j)))));
                            }
                            assert forall|j: u128, x: (RangeAddr, CellAddr)| #[trigger] items_at(self.wide_watchers@, j).contains(x) <==> in_wide(h2, j, x) by {
                                assert(items_at(old(self).wide_watchers@, j).contains(x) <==> in_wide(h, j, x));
                            }
                        }
                    },
                    None => {
                        let sk = area.sheet.0 as u128;
                        items_push(&mut self.wide_watchers, sk, item);
                        proof {
                            assert forall|j: u128, x: (RangeAddr, CellAddr)| #[trigger] items_at(self.wide_watchers@, j).contains(x) <==> in_wide(h2, j, x) by {
                                lemma_keys_match(x.1, formula);
                                assert(items_at(old(self).wide_watchers@, j).contains(x) <==> in_wide(h, j, x));
                            }
                            assert forall|j: u128, x: u128| #[trigger] set_at(self.cell_watchers@, j).contains(x) <==> (j < key_limit() && h2(x, Dependency::Cell(key_addr(j)))) by {
                                assert(set_at(old(self).cell_watchers@, j).contains(x) <==> (j < key_limit() && h(x, Dependency::Cell(key_addr(j)))));
                            }
                            assert forall|j: u128, x: (RangeAddr, CellAddr)| #[trigger] items_at(self.tile_watchers@, j).contains(x) <==> in_tile(h2, j, x) by {
                                assert(items_at(old(self).tile_watchers@, j).contains(x) <==> in_tile(h, j, x));
                            }
                        }
                    },
                }
            },
        }
    }
}

/// Whether a formula reads a cell, going by what the graph holds.
pub open spec fn is_dependent(formulas: Map<u128, Seq<Dependency>>, f: CellAddr, addr: CellAddr) -> bool {
    formulas.contains_key(addr_key(f)) && exists|i: int|
        0 <= i < formulas[addr_key(f)].len() && reads(#[trigger] formulas[addr_key(f)][i], addr)
}

/// Cells in strictly increasing order of sheet, row and column.
pub open spec fn ascending(s: Seq<CellAddr>) -> bool {
    forall|i: int, j: int| 0 <= i < j < s.len() ==> addr_key(#[trigger] s[i]) < addr_key(#[trigger] s[j])
}

/// Insert a cell into an ascending list unless it is there already; the
/// position is found by bisection.
pub fn insert_sorted(list: &mut Vec<CellAddr>, addr: CellAddr)
    ensures
        ascending(old(list)@) ==> ascending(final(list)@),
        ascending(old(list)@) ==> forall|x: CellAddr| #[trigger] final(list)@.contains(x) <==> (old(list)@.contains(x) || x == addr),
        final(list)@ == old(list)@ || exists|i: int| 0 <= i <= old(list)@.len() && final(list)@ == old(list)@.insert(i, addr),
{
    let key = key_of(addr);
    let mut lo: usize = 0;
    let mut hi: usize = list.len();
    while lo < hi
        invariant
            lo <= hi <= list@.len(),
            key == addr_key(addr),
            ascending(list@) ==> forall|i: int| 0 <= i < lo ==> addr_key(#[trigger] list@[i]) < key,
            ascending(list@) ==> forall|i: int| hi <= i < list@.len() ==> addr_key(#[trigger] list@[i]) > key,
        decreases hi - lo,
    {
        let mid = lo + (hi - lo) / 2;
        let k = key_of(list[mid]);
        if k == key {
            proof {
                lemma_keys_match(list@[mid as int], addr);
                assert(list@.contains(addr));
            }
            return;
        } else if k < key {
            lo = mid + 1;
        } else {
            hi = mid;
        }
    }
    let ghost before = list@;
    list.insert(lo, addr);
    proof {
        if ascending(before) {
            assert forall|i: int, j: int| 0 <= i < j < list@.len() implies addr_key(#[trigger] list@[i]) < addr_key(#[trigger] list@[j]) by {
                if j < lo {
                } else if j == lo {
                } else if i < lo {
                } else if i == lo {
                    assert(list@[j] == before[j - 1]);
                } else {
                    assert(list@[i] == before[i - 1]);
                    assert(list@[j] == before[j - 1]);
                }
            }
            assert forall|x: CellAddr| #[trigger] list@.contains(x) <==> (before.contains(x) || x == addr) by {
                if list@.contains(x) {
                    let w = choose|w: int| 0 <= w < list@.len() && list@[w] == x;
                    if w < lo {
                        assert(before[w] == x);
                    } else if w > lo {
                        assert(before[w - 1] == x);
                    }
                }
                if before.contains(x) {
                    let w = choose|w: int| 0 <= w < before.len() && before[w] == x;
                    if w < lo {
                        assert(list@[w] == x);
                    } else {
                        assert(list@[w + 1] == x);
                    }
                }
                if x == addr {
                    assert(list@[lo as int] == x);
                }
            }
        }
    }
}

impl DependencyGraph {
    /// A graph holds finitely many formulas.
    pub proof fn lemma_formulas_finite(&self)
        ensures
            self.formulas().dom().finite(),
    {
        assert(self.formulas().dom() =~= self.precedents@.dom());
    }

    /// The formulas the graph counts are exactly those that read something:
    /// every formula it holds has at least one precedent, so one whose
    /// precedents were set to nothing is no longer among them.
    pub proof fn lemma_counted_formulas_read_something(&self, formula: CellAddr)
        requires
            self.well_formed(),
        ensures
            self.formulas().contains_key(addr_key(formula)) ==> self.formulas()[addr_key(formula)].len() > 0,
    {
    }

    pub fn new() -> (g: Self)
        ensures
            g.well_formed(),
            g.formulas() == Map::<u128, Seq<Dependency>>::empty(),
    {
        let g = DependencyGraph {
            precedents: HashMap::new(),
            cell_watchers: HashMap::new(),
            tile_watchers: HashMap::new(),
            wide_watchers: HashMap::new(),
        };
        assert(g.formulas() =~= Map::<u128, Seq<Dependency>>::empty());
        g
    }

    /// Forget everything `formula` read.
    pub fn clear(&mut self, formula: CellAddr)
        requires
            old(self).well_formed(),
        ensures
            final(self).well_formed(),
            final(self).formulas() == old(self).formulas().remove(addr_key(formula)),
    {
        let fk = key_of(formula);
        let previous = match self.precedents.remove(&fk) {
            None => {
                assert(self.formulas() =~= old(self).formulas().remove(addr_key(formula)));
                return;
            },
            Some(previous) => previous,
        };
        let ghost p = self.precedents@;
        let ghost start = withdrawing(p, fk, previous@, 0);
        proof {
            assert forall|k: u128, e: Dependency| #[trigger] reading(old(self).precedents@)(k, e) == start(k, e) by {
                assert(previous@.take(0) =~= Seq::<Dependency>::empty());
            }
            lemma_same_reading(
                reading(old(self).precedents@),
                start,
                self.cell_watchers@,
                self.tile_watchers@,
                self.wide_watchers@,
            );
        }
        let mut i: usize = 0;
        while i < previous.len()
            invariant
                i <= previous@.len(),
                fk == addr_key(formula),
                self.precedents@ == p,
                !p.contains_key(fk),
                previous@ == old(self).precedents@[fk]@,
                old(self).precedents@.contains_key(fk),
                forall|q: int| 0 <= q < previous@.len() ==> countable(#[trigger] previous@[q]),
                cell_index(withdrawing(p, fk, previous@, i as int), self.cell_watchers@),
                tile_index(withdrawing(p, fk, previous@, i as int), self.tile_watchers@),
                wide_index(withdrawing(p, fk, previous@, i as int), self.wide_watchers@),
                no_empty_sets(self.cell_watchers@),
                no_empty_lists(self.tile_watchers@),
                no_empty_lists(self.wide_watchers@),
            decreases previous.len() - i,
        {
            proof {
                assert forall|k: u128, e: Dependency| #[trigger] withdrawing(p, fk, previous@, i + 1)(k, e)
                    == (withdrawing(p, fk, previous@, i as int)(k, e) && !(k == addr_key(formula) && e == previous@[i as int])) by {
                    lemma_take_step(previous@, i as int, e);
                }
            }
            self.withdraw(
                formula,
                previous[i],
                Ghost(withdrawing(p, fk, previous@, i as int)),
                Ghost(withdrawing(p, fk, previous@, i + 1)),
            );
            i = i + 1;
        }
        proof {
            assert(previous@.take(previous@.len() as int) =~= previous@);
            assert forall|k: u128, e: Dependency| #[trigger] withdrawing(p, fk, previous@, previous@.len() as int)(k, e)
                == reading(self.precedents@)(k, e) by {}
            lemma_same_reading(
                withdrawing(p, fk, previous@, previous@.len() as int),
                reading(self.precedents@),
                self.cell_watchers@,
                self.tile_watchers@,
                self.wide_watchers@,
            );
            assert(self.formulas() =~= old(self).formulas().remove(addr_key(formula)));
        }
    }

    /// Record what `formula` reads, replacing whatever it read before.
    ///
    /// A range whose corners are out of order at the scale of tiles cannot
    /// have its tiles counted, so none is accepted.
    pub fn set_precedents(&mut self, formula: CellAddr, dependencies: Vec<Dependency>)
        requires
            old(self).well_formed(),
            forall|i: int| 0 <= i < dependencies@.len() ==> countable(#[trigger] dependencies@[i]),
        ensures
            final(self).well_formed(),
            final(self).formulas() == if dependencies@.len() == 0 {
                old(self).formulas().remove(addr_key(formula))
            } else {
                old(self).formulas().insert(addr_key(formula), dependencies@)
            },
    {
        self.clear(formula);
        if dependencies.len() == 0 {
            return;
        }
        let fk = key_of(formula);
        let ghost p = self.precedents@;
        let ghost cleared = self.formulas();
        let ghost start = registering(p, fk, dependencies@, 0);
        proof {
            assert(!p.contains_key(fk)) by {
                assert(!cleared.contains_key(fk));
            }
            assert forall|k: u128, e: Dependency| #[trigger] reading(p)(k, e) == start(k, e) by {
                assert(dependencies@.take(0) =~= Seq::<Dependency>::empty());
            }
            lemma_same_reading(reading(p), start, self.cell_watchers@, self.tile_watchers@, self.wide_watchers@);
        }
        let mut i: usize = 0;
        while i < dependencies.len()
            invariant
                i <= dependencies@.len(),
                fk == addr_key(formula),
                self.precedents@ == p,
                !p.contains_key(fk),
                forall|q: int| 0 <= q < dependencies@.len() ==> countable(#[trigger] dependencies@[q]),
                cell_index(registering(p, fk, dependencies@, i as int), self.cell_watchers@),
                tile_index(registering(p, fk, dependencies@, i as int), self.tile_watchers@),
                wide_index(registering(p, fk, dependencies@, i as int), self.wide_watchers@),
                no_empty_sets(self.cell_watchers@),
                no_empty_lists(self.tile_watchers@),
                no_empty_lists(self.wide_watchers@),
            decreases dependencies.len() - i,
        {
            proof {
                assert forall|k: u128, e: Dependency| #[trigger] registering(p, fk, dependencies@, i + 1)(k, e)
                    == (registering(p, fk, dependencies@, i as int)(k, e) || (k == addr_key(formula) && e == dependencies@[i as int])) by {
                    lemma_take_step(dependencies@, i as int, e);
                }
            }
            self.register(
                formula,
                dependencies[i],
                Ghost(registering(p, fk, dependencies@, i as int)),
                Ghost(registering(p, fk, dependencies@, i + 1)),
            );
            i = i + 1;
        }
        let ghost deps = dependencies@;
        self.precedents.insert(fk, dependencies);
        proof {
            lemma_pack_bound(formula.sheet.0, formula.cell.row, formula.cell.col);
            assert(deps.take(deps.len() as int) =~= deps);
            assert forall|k: u128, e: Dependency| #[trigger] registering(p, fk, deps, deps.len() as int)(k, e)
                == reading(self.precedents@)(k, e) by {}
            lemma_same_reading(
                registering(p, fk, deps, deps.len() as int),
                reading(self.precedents@),
                self.cell_watchers@,
                self.tile_watchers@,
                self.wide_watchers@,
            );
            assert(cleared == old(self).formulas().remove(addr_key(formula)));
            assert(self.precedents@ == p.insert(fk, self.precedents@[fk]));
            assert(self.precedents@[fk]@ == deps);
            assert(self.formulas() =~= cleared.insert(fk, deps));
            assert(cleared.insert(fk, deps) =~= old(self).formulas().insert(addr_key(formula), deps));
        }
    }

    /// What `formula` reads.
    pub fn precedents_of(&self, formula: CellAddr) -> (r: &[Dependency])
        ensures
            r@ == if self.formulas().contains_key(addr_key(formula)) {
                self.formulas()[addr_key(formula)]
            } else {
                Seq::empty()
            },
    {
        let fk = key_of(formula);
        match self.precedents.get(&fk) {
            Some(list) => list.as_slice(),
            None => &[],
        }
    }

    /// How many formulas the graph is tracking.
    pub fn formula_count(&self) -> (n: usize)
        ensures
            n == self.formulas().dom().len(),
    {
        assert(self.formulas().dom() =~= self.precedents@.dom());
        self.precedents.len()
    }

    /// Whether the graph holds nothing at all: no formula, and nothing left
    /// behind in any index.
    pub fn is_empty(&self) -> (b: bool)
        requires
            self.well_formed(),
        ensures
            b == self.formulas().dom().is_empty(),
    {
        proof {
            assert(self.formulas().dom() =~= self.precedents@.dom());
            if self.precedents@.dom().is_empty() {
                assert forall|k: u128| !self.cell_watchers@.contains_key(k) by {
                    if self.cell_watchers@.contains_key(k) {
                        let x = choose|x: u128| self.cell_watchers@[k]@.contains(x);
                        assert(set_at(self.cell_watchers@, k).contains(x));
                    }
                }
                assert forall|k: u128| !self.tile_watchers@.contains_key(k) by {
                    if self.tile_watchers@.contains_key(k) {
                        let x = self.tile_watchers@[k]@[0];
                        assert(items_at(self.tile_watchers@, k).contains(x));
                    }
                }
                assert forall|k: u128| !self.wide_watchers@.contains_key(k) by {
                    if self.wide_watchers@.contains_key(k) {
                        let x = self.wide_watchers@[k]@[0];
                        assert(items_at(self.wide_watchers@, k).contains(x));
                    }
                }
                assert(self.cell_watchers@.dom() =~= Set::<u128>::empty());
                assert(self.tile_watchers@.dom() =~= Set::<u128>::empty());
                assert(self.wide_watchers@.dom() =~= Set::<u128>::empty());
            }
        }
        self.precedents.is_empty() && self.cell_watchers.is_empty() && self.tile_watchers.is_empty()
            && self.wide_watchers.is_empty()
    }
}

/// Add the formulas of a bucket whose range holds `addr`.
fn collect_ranges(bucket: &Vec<(RangeAddr, CellAddr)>, addr: CellAddr, out: &mut Vec<CellAddr>)
    requires
        ascending(old(out)@),
    ensures
        ascending(final(out)@),
        forall|f: CellAddr| #[trigger] final(out)@.contains(f) <==> (old(out)@.contains(f) || exists|q: int|
            0 <= q < bucket@.len() && bucket@[q].1 == f && (#[trigger] bucket@[q]).0.holds(addr)),
{
    let mut q: usize = 0;
    while q < bucket.len()
        invariant
            q <= bucket@.len(),
            ascending(out@),
            forall|f: CellAddr| #[trigger] out@.contains(f) <==> (old(out)@.contains(f) || exists|w: int|
                0 <= w < q && bucket@[w].1 == f && (#[trigger] bucket@[w]).0.holds(addr)),
        decreases bucket.len() - q,
    {
        let (area, formula) = bucket[q];
        if area.contains(addr) {
            insert_sorted(out, formula);
        }
        q = q + 1;
    }
}

impl DependencyGraph {
    /// The formulas registered under the cell's own key.
    fn collect_direct(&self, addr: CellAddr, out: &mut Vec<CellAddr>)
        requires
            self.well_formed(),
            ascending(old(out)@),
        ensures
            ascending(final(out)@),
            forall|f: CellAddr| #[trigger] final(out)@.contains(f) <==> (old(out)@.contains(f) || set_at(
                self.cell_watchers@,
                addr_key(addr),
            ).contains(addr_key(f))),
    {
        let ak = key_of(addr);
        match self.cell_watchers.get(&ak) {
            None => {},
            Some(direct) => {
                assert(direct@ == set_at(self.cell_watchers@, ak));
                let ghost keys = vstd::std_specs::hash::spec_hash_keys_iter(direct).remaining().unref();
                let ghost mut done: int = 0;
                proof {
                    assert(keys.to_set() == direct@);
                }
                for fk in it: direct.iter()
                    invariant
                        ascending(out@),
                        it.seq().unref() == keys,
                        done == it.index(),
                        keys.to_set() == direct@,
                        direct@ == set_at(self.cell_watchers@, ak),
                        self.well_formed(),
                        forall|f: CellAddr| #[trigger] out@.contains(f) <==> (old(out)@.contains(f) || exists|j: int|
                            0 <= j < done && addr_key(f) == #[trigger] keys[j]),
                {
                    let ghost here = done;
                    proof {
                        assert(keys[here] == *fk);
                        assert(keys.contains(*fk));
                        assert(direct@.contains(*fk));
                        assert(set_at(self.cell_watchers@, ak).contains(*fk));
                        assert(self.precedents@.contains_key(*fk));
                    }
                    let f = addr_of_key(*fk);
                    insert_sorted(out, f);
                    proof {
                        done = done + 1;
                        assert forall|g: CellAddr| #[trigger] out@.contains(g) <==> (old(out)@.contains(g) || exists|j: int|
                            0 <= j < here + 1 && addr_key(g) == #[trigger] keys[j]) by {
                            if g == f {
                                assert(addr_key(g) == keys[here]);
                            }
                            if exists|j: int| 0 <= j < here + 1 && addr_key(g) == #[trigger] keys[j] {
                                let j = choose|j: int| 0 <= j < here + 1 && addr_key(g) == #[trigger] keys[j];
                                if j == here {
                                    lemma_keys_match(g, f);
                                }
                            }
                        }
                    }
                }
                proof {
                    assert(done == keys.len());
                    assert forall|f: CellAddr| #[trigger] out@.contains(f) <==> (old(out)@.contains(f) || set_at(
                        self.cell_watchers@,
                        ak,
                    ).contains(addr_key(f))) by {
                        if direct@.contains(addr_key(f)) {
                            assert(keys.to_set().contains(addr_key(f)));
                            assert(keys.contains(addr_key(f)));
                            let j = choose|j: int| 0 <= j < keys.len() && keys[j] == addr_key(f);
                            assert(addr_key(f) == keys[j]);
                        }
                        if exists|j: int| 0 <= j < done && addr_key(f) == #[trigger] keys[j] {
                            let j = choose|j: int| 0 <= j < done && addr_key(f) == #[trigger] keys[j];
                            assert(keys.contains(addr_key(f)));
                            assert(keys.to_set().contains(addr_key(f)));
                        }
                    }
                }
            },
        }
    }
}

/// A cell in a range is in a tile the range covers.
proof fn lemma_held_cell_tile(area: RangeAddr, addr: CellAddr)
    requires
        area.holds(addr),
    ensures
        covers_tile(area, tile_at(addr)),
{
    let a = area.range.start.row;
    let b = addr.cell.row;
    let c = area.range.end.row;
    assert(a / 256 <= b / 256 <= c / 256) by (nonlinear_arith)
        requires
            a <= b <= c,
    ;
    let x = area.range.start.col;
    let y = addr.cell.col;
    let z = area.range.end.col;
    assert(x / 256 <= y / 256 <= z / 256) by (nonlinear_arith)
        requires
            x <= y <= z,
    ;
}

impl DependencyGraph {
    /// Every formula that reads `addr`, directly or through a range, in
    /// order of sheet, row and column, each once.
    pub fn dependents_of(&self, addr: CellAddr) -> (r: Vec<CellAddr>)
        requires
            self.well_formed(),
        ensures
            ascending(r@),
            forall|f: CellAddr| #[trigger] r@.contains(f) <==> is_dependent(self.formulas(), f, addr),
    {
        let mut out: Vec<CellAddr> = Vec::new();
        self.collect_direct(addr, &mut out);
        let ghost after_direct = out@;
        let tk = tile_key_of(tile_of(addr));
        let ghost tile_bucket = items_at(self.tile_watchers@, tk);
        match self.tile_watchers.get(&tk) {
            Some(bucket) => collect_ranges(bucket, addr, &mut out),
            None => {},
        }
        let ghost after_tiles = out@;
        let sk = addr.sheet.0 as u128;
        let ghost wide_bucket = items_at(self.wide_watchers@, sk);
        match self.wide_watchers.get(&sk) {
            Some(bucket) => collect_ranges(bucket, addr, &mut out),
            None => {},
        }
        proof {
            let has = reading(self.precedents@);
            let ak = addr_key(addr);
            lemma_pack_bound(addr.sheet.0, addr.cell.row, addr.cell.col);
            lemma_addr_key(addr);
            let t = tile_at(addr);
            lemma_pack_bound(t.sheet.0, t.row, t.col);
            lemma_pack(t.sheet.0, t.row, t.col);
            assert(key_tile(tk) == t);
            assert forall|f: CellAddr| #[trigger] out@.contains(f) <==> is_dependent(self.formulas(), f, addr) by {
                let fk = addr_key(f);
                let deps = deps_at(self.precedents@, fk);
                if is_dependent(self.formulas(), f, addr) {
                    let i = choose|i: int| 0 <= i < self.formulas()[fk].len() && reads(#[trigger] self.formulas()[fk][i], addr);
                    let d = deps[i];
                    assert(deps.contains(d));
                    match d {
                        Dependency::Cell(target) => {
                            assert(target == addr);
                            assert(has(fk, Dependency::Cell(key_addr(ak))));
                            assert(set_at(self.cell_watchers@, ak).contains(fk));
                            assert(after_direct.contains(f));
                        },
                        Dependency::Range(area) => {
                            assert(has(fk, Dependency::Range(area)));
                            if bucketed(area) {
                                lemma_held_cell_tile(area, addr);
                                assert(in_tile(has, tk, (area, f)));
                                assert(tile_bucket.contains((area, f)));
                                let q = choose|q: int| 0 <= q < tile_bucket.len() && tile_bucket[q] == (area, f);
                                assert(tile_bucket[q].1 == f && tile_bucket[q].0.holds(addr));
                                assert(after_tiles.contains(f));
                            } else {
                                assert(in_wide(has, sk, (area, f)));
                                assert(wide_bucket.contains((area, f)));
                                let q = choose|q: int| 0 <= q < wide_bucket.len() && wide_bucket[q] == (area, f);
                                assert(wide_bucket[q].1 == f && wide_bucket[q].0.holds(addr));
                            }
                        },
                    }
                }
                if out@.contains(f) {
                    if after_direct.contains(f) {
                        assert(set_at(self.cell_watchers@, ak).contains(fk));
                        assert(has(fk, Dependency::Cell(key_addr(ak))));
                        let i = choose|i: int| 0 <= i < deps.len() && deps[i] == Dependency::Cell(addr);
                        assert(reads(self.formulas()[fk][i], addr));
                    } else if after_tiles.contains(f) {
                        let q = choose|q: int| 0 <= q < tile_bucket.len() && tile_bucket[q].1 == f && (#[trigger] tile_bucket[q]).0.holds(addr);
                        let item = tile_bucket[q];
                        assert(tile_bucket.contains(item));
                        assert(in_tile(has, tk, item));
                        let i = choose|i: int| 0 <= i < deps.len() && deps[i] == Dependency::Range(item.0);
                        assert(reads(self.formulas()[fk][i], addr));
                    } else {
                        let q = choose|q: int| 0 <= q < wide_bucket.len() && wide_bucket[q].1 == f && (#[trigger] wide_bucket[q]).0.holds(addr);
                        let item = wide_bucket[q];
                        assert(wide_bucket.contains(item));
                        assert(in_wide(has, sk, item));
                        let i = choose|i: int| 0 <= i < deps.len() && deps[i] == Dependency::Range(item.0);
                        assert(reads(self.formulas()[fk][i], addr));
                    }
                }
            }
        }
        out
    }
}

/// After a formula's references are replaced, an edit to a cell finds the
/// formula exactly when one of the new references reads that cell; what it
/// read before no longer matters.
pub proof fn lemma_replacement_decides(
    formulas: Map<u128, Seq<Dependency>>,
    f: CellAddr,
    deps: Seq<Dependency>,
    addr: CellAddr,
)
    ensures
        is_dependent(formulas.insert(addr_key(f), deps), f, addr) <==> exists|i: int|
            0 <= i < deps.len() && reads(#[trigger] deps[i], addr),
{
    let m = formulas.insert(addr_key(f), deps);
    assert(m[addr_key(f)] == deps);
}

/// Replacing or clearing one formula's references changes nothing for any
/// other formula.
pub proof fn lemma_other_formulas_unaffected(
    formulas: Map<u128, Seq<Dependency>>,
    f: CellAddr,
    g: CellAddr,
    deps: Seq<Dependency>,
    addr: CellAddr,
)
    requires
        f != g,
    ensures
        is_dependent(formulas.insert(addr_key(f), deps), g, addr) == is_dependent(formulas, g, addr),
        is_dependent(formulas.remove(addr_key(f)), g, addr) == is_dependent(formulas, g, addr),
{
    lemma_keys_match(f, g);
    let m = formulas.insert(addr_key(f), deps);
    let r = formulas.remove(addr_key(f));
    if formulas.contains_key(addr_key(g)) {
        assert(m[addr_key(g)] == formulas[addr_key(g)]);
        assert(r[addr_key(g)] == formulas[addr_key(g)]);
    }
}

/// Once a formula is cleared, no edit to any cell finds it.
pub proof fn lemma_cleared_formula_found_nowhere(
    formulas: Map<u128, Seq<Dependency>>,
    f: CellAddr,
    addr: CellAddr,
)
    ensures
        !is_dependent(formulas.remove(addr_key(f)), f, addr),
{
}

} // verus!
