//! Sparse storage for one sheet.
//!
//! A sheet addresses 17 billion cells and holds a few thousand, so storage is
//! a map rather than a grid. The bounding box of what is populated is kept
//! alongside, because the calculation engine uses it to avoid walking a whole
//! column to add up four numbers.
//!
//! What a cell holds (`C`) is carried through untouched.

use std::collections::HashMap;

use vstd::prelude::*;
use vstd::math::{max, min};
use vstd::std_specs::iter::IteratorSpec;

use crate::coord::{CellRef, RangeRef};
use crate::graph::{lemma_pack, lemma_pack_bound, lemma_unpack, pack, pack_key, unpack};

verus! {

broadcast use {
    vstd::std_specs::hash::group_hash_axioms,
    vstd::std_specs::hash::axiom_u128_obeys_hash_table_key_model,
    vstd::std_specs::hash::axiom_random_state_builds_valid_hashers,
    vstd::string::group_string_axioms,
};

/// The key a cell is stored under.
pub open spec fn cell_key(c: CellRef) -> u128 {
    pack(0, c.row, c.col)
}

/// The cell a key stands for.
pub open spec fn key_cell(k: u128) -> CellRef {
    CellRef { row: unpack(k).1, col: unpack(k).2 }
}

proof fn lemma_cell_key(c: CellRef)
    ensures
        key_cell(cell_key(c)) == c,
        unpack(cell_key(c)).0 == 0,
{
    lemma_pack(0, c.row, c.col);
}

proof fn lemma_key_cell(k: u128)
    requires
        k < 0x1_0000_0000_0000_0000_0000_0000,
        unpack(k).0 == 0,
    ensures
        cell_key(key_cell(k)) == k,
{
    lemma_unpack(k);
}

/// The box covering one more cell.
pub open spec fn grown(used: Option<RangeRef>, c: CellRef) -> RangeRef {
    match used {
        None => RangeRef { start: c, end: c },
        Some(b) => RangeRef {
            start: CellRef { row: min(b.start.row as int, c.row as int) as u32, col: min(b.start.col as int, c.col as int) as u32 },
            end: CellRef { row: max(b.end.row as int, c.row as int) as u32, col: max(b.end.col as int, c.col as int) as u32 },
        },
    }
}

/// Whether a cell lies on an edge of a box.
pub open spec fn on_edge(b: RangeRef, c: CellRef) -> bool {
    c.row == b.start.row || c.row == b.end.row || c.col == b.start.col || c.col == b.end.col
}

/// Every edge of a box has a cell on it, so the box is no larger than the
/// cells need.
pub open spec fn tight(keys: Set<u128>, b: RangeRef) -> bool {
    &&& exists|k: u128| keys.contains(k) && #[trigger] key_cell(k).row == b.start.row
    &&& exists|k: u128| keys.contains(k) && #[trigger] key_cell(k).row == b.end.row
    &&& exists|k: u128| keys.contains(k) && #[trigger] key_cell(k).col == b.start.col
    &&& exists|k: u128| keys.contains(k) && #[trigger] key_cell(k).col == b.end.col
}

/// One sheet's cells.
pub struct Sheet<C> {
    name: String,
    cells: HashMap<u128, C>,
    /// Bounding box of the populated cells.
    ///
    /// May be larger than the true extent after a deletion that did not touch
    /// an edge, which is harmless: the contract is that it never excludes a
    /// populated cell.
    used: Option<RangeRef>,
}

impl<C> Sheet<C> {
    /// The sheet's name.
    pub closed spec fn name_text(&self) -> Seq<char> {
        self.name@
    }

    /// What each populated cell holds.
    pub closed spec fn contents(&self) -> Map<CellRef, C> {
        Map::new(|c: CellRef| self.cells@.contains_key(cell_key(c)), |c: CellRef| self.cells@[cell_key(c)])
    }

    /// The bounding box kept of the populated cells.
    pub closed spec fn used(&self) -> Option<RangeRef> {
        self.used
    }

    /// Every key is a cell's, the box is empty exactly when the sheet is, and
    /// it covers every populated cell.
    pub closed spec fn well_formed(&self) -> bool {
        &&& forall|k: u128| #[trigger] self.cells@.contains_key(k) ==> k < 0x1_0000_0000_0000_0000_0000_0000 && unpack(k).0 == 0
        &&& (self.used is None <==> self.cells@.dom().len() == 0)
        &&& self.cells@.dom().finite()
        &&& (self.used matches Some(b) ==> b.normalised() && forall|k: u128| #[trigger] self.cells@.contains_key(k) ==> b.covers(key_cell(k)))
        &&& (self.used matches Some(b) ==> tight(self.cells@.dom(), b))
    }

    proof fn lemma_contents(&self)
        requires
            self.well_formed(),
        ensures
            self.contents().dom().finite(),
            self.contents().dom().len() == self.cells@.dom().len(),
            (self.used() is None <==> self.contents().dom().len() == 0),
            self.used() matches Some(b) ==> b.normalised() && forall|c: CellRef| #[trigger] self.contents().contains_key(c) ==> b.covers(c),
    {
        let d = self.cells@.dom();
        assert(self.contents().dom() == d.map(|k: u128| key_cell(k))) by {
            assert forall|c: CellRef| self.contents().dom().contains(c) <==> d.map(|k: u128| key_cell(k)).contains(c) by {
                if self.contents().dom().contains(c) {
                    lemma_cell_key(c);
                    assert(d.contains(cell_key(c)));
                }
                if d.map(|k: u128| key_cell(k)).contains(c) {
                    let k = choose|k: u128| d.contains(k) && key_cell(k) == c;
                    lemma_key_cell(k);
                }
            }
        }
        assert forall|a: u128, b: u128| d.contains(a) && d.contains(b) && key_cell(a) == key_cell(b) implies a == b by {
            lemma_key_cell(a);
            lemma_key_cell(b);
        }
        vstd::set_lib::lemma_map_size(d, d.map(|k: u128| key_cell(k)), |k: u128| key_cell(k));
        if let Some(b) = self.used {
            assert forall|c: CellRef| #[trigger] self.contents().contains_key(c) implies b.covers(c) by {
                lemma_cell_key(c);
            }
        }
    }

    /// An empty sheet.
    pub fn new(name: &str) -> (s: Self)
        ensures
            s.well_formed(),
            s.name_text() == name@,
            s.contents() == Map::<CellRef, C>::empty(),
            s.used() is None,
    {
        let s = Sheet { name: String::from_str(name), cells: HashMap::new(), used: None };
        assert(s.contents() =~= Map::<CellRef, C>::empty());
        s
    }

    pub fn name(&self) -> (r: &str)
        ensures
            r@ == self.name_text(),
    {
        self.name.as_str()
    }

    pub fn rename(&mut self, name: &str)
        requires
            old(self).well_formed(),
        ensures
            final(self).well_formed(),
            final(self).name_text() == name@,
            final(self).contents() == old(self).contents(),
            final(self).used() == old(self).used(),
    {
        self.name = String::from_str(name);
    }

    /// What a cell holds, if anything.
    pub fn get(&self, cell: CellRef) -> (r: Option<&C>)
        ensures
            r matches Some(v) ==> self.contents().contains_key(cell) && *v == self.contents()[cell],
            r is None ==> !self.contents().contains_key(cell),
    {
        let k = pack_key(0, cell.row, cell.col);
        self.cells.get(&k)
    }

    /// Store what a cell holds, replacing anything there.
    pub fn insert(&mut self, cell: CellRef, content: C)
        requires
            old(self).well_formed(),
        ensures
            final(self).well_formed(),
            final(self).contents() == old(self).contents().insert(cell, content),
            final(self).used() == Some(grown(old(self).used(), cell)),
            final(self).name_text() == old(self).name_text(),
    {
        let one = RangeRef::single(cell);
        let bounds = match self.used {
            None => one,
            Some(used) => used.union_bounds(&one),
        };
        let k = pack_key(0, cell.row, cell.col);
        proof {
            lemma_cell_key(cell);
            lemma_pack_bound(0, cell.row, cell.col);
        }
        let ghost before = self.cells@;
        self.cells.insert(k, content);
        self.used = Some(bounds);
        proof {
            assert(self.cells@.dom().contains(k));
            assert(self.cells@.dom().len() > 0);
            assert forall|j: u128| #[trigger] self.cells@.contains_key(j) implies bounds.covers(key_cell(j)) by {
                if j != k {
                    assert(before.contains_key(j));
                }
            }
            assert(key_cell(k) == cell);
            match old(self).used {
                None => {},
                Some(b) => {
                    let w1 = choose|w: u128| before.dom().contains(w) && #[trigger] key_cell(w).row == b.start.row;
                    let w2 = choose|w: u128| before.dom().contains(w) && #[trigger] key_cell(w).row == b.end.row;
                    let w3 = choose|w: u128| before.dom().contains(w) && #[trigger] key_cell(w).col == b.start.col;
                    let w4 = choose|w: u128| before.dom().contains(w) && #[trigger] key_cell(w).col == b.end.col;
                    assert(self.cells@.dom().contains(w1));
                    assert(self.cells@.dom().contains(w2));
                    assert(self.cells@.dom().contains(w3));
                    assert(self.cells@.dom().contains(w4));
                },
            }
            assert(tight(self.cells@.dom(), bounds));
            assert(self.contents() =~= old(self).contents().insert(cell, content)) by {
                assert forall|c: CellRef| #[trigger] self.contents().contains_key(c) <==> old(self).contents().insert(cell, content).contains_key(c) by {
                    lemma_cell_key(c);
                    if c != cell {
                        assert(cell_key(c) != k) by {
                            lemma_cell_key(cell);
                        }
                    }
                }
                assert forall|c: CellRef| #[trigger] self.contents().contains_key(c) implies self.contents()[c] == old(self).contents().insert(cell, content)[c] by {
                    lemma_cell_key(c);
                    if c != cell {
                        assert(cell_key(c) != k) by {
                            lemma_cell_key(cell);
                        }
                    }
                }
            }
        }
    }

    /// The bounding box of every populated cell.
    pub fn used_bounds(&self) -> (r: Option<RangeRef>)
        ensures
            r == self.used(),
    {
        self.used
    }

    /// How many cells hold something.
    pub fn populated(&self) -> (n: usize)
        requires
            self.well_formed(),
        ensures
            n == self.contents().dom().len(),
    {
        proof {
            self.lemma_contents();
        }
        self.cells.len()
    }

    pub fn is_empty(&self) -> (b: bool)
        requires
            self.well_formed(),
        ensures
            b == (self.contents().dom().len() == 0),
    {
        proof {
            self.lemma_contents();
        }
        self.cells.len() == 0
    }

    /// Work the box out again from every populated cell.
    fn recompute_used(&mut self)
        requires
            forall|k: u128| #[trigger] old(self).cells@.contains_key(k) ==> k < 0x1_0000_0000_0000_0000_0000_0000 && unpack(k).0 == 0,
            old(self).cells@.dom().finite(),
        ensures
            final(self).well_formed(),
            final(self).cells@ == old(self).cells@,
            final(self).name == old(self).name,
    {
        let ghost keys = vstd::std_specs::hash::spec_keys_iter(&self.cells).remaining().unref();
        let ghost mut done: int = 0;
        let mut bounds: Option<RangeRef> = None;
        proof {
            assert(keys.to_set() == self.cells@.dom());
        }
        for k in it: self.cells.keys()
            invariant
                it.seq().unref() == keys,
                done == it.index(),
                keys.to_set() == self.cells@.dom(),
                keys.len() == self.cells@.dom().len(),
                forall|j: u128| #[trigger] self.cells@.contains_key(j) ==> j < 0x1_0000_0000_0000_0000_0000_0000 && unpack(j).0 == 0,
                bounds is None <==> done == 0,
                bounds matches Some(b) ==> b.normalised(),
                bounds matches Some(b) ==> forall|m: int| 0 <= m < done ==> b.covers(key_cell(#[trigger] keys[m])),
                bounds matches Some(b) ==> tight(self.cells@.dom(), b),
        {
            let ghost here = done;
            proof {
                assert(keys[here] == *k);
                assert(keys.contains(*k));
                assert(self.cells@.dom().contains(*k));
                lemma_key_cell(*k);
            }
            let at = CellRef::new(((*k >> 32u128) & 0xFFFF_FFFFu128) as u32, (*k & 0xFFFF_FFFFu128) as u32);
            assert(at == key_cell(*k));
            let one = RangeRef::single(at);
            let next = match bounds {
                None => one,
                Some(acc) => acc.union_bounds(&one),
            };
            proof {
                match bounds {
                    None => {},
                    Some(b) => {
                        let w1 = choose|w: u128| self.cells@.dom().contains(w) && #[trigger] key_cell(w).row == b.start.row;
                        let w2 = choose|w: u128| self.cells@.dom().contains(w) && #[trigger] key_cell(w).row == b.end.row;
                        let w3 = choose|w: u128| self.cells@.dom().contains(w) && #[trigger] key_cell(w).col == b.start.col;
                        let w4 = choose|w: u128| self.cells@.dom().contains(w) && #[trigger] key_cell(w).col == b.end.col;
                        assert(key_cell(w1).row == b.start.row);
                        assert(key_cell(w2).row == b.end.row);
                        assert(key_cell(w3).col == b.start.col);
                        assert(key_cell(w4).col == b.end.col);
                    },
                }
                assert(tight(self.cells@.dom(), next));
                done = done + 1;
            }
            bounds = Some(next);
        }
        proof {
            assert(done == keys.len());
            if let Some(b) = bounds {
                assert forall|j: u128| #[trigger] self.cells@.contains_key(j) implies b.covers(key_cell(j)) by {
                    assert(keys.to_set().contains(j));
                    assert(keys.contains(j));
                    let m = choose|m: int| 0 <= m < keys.len() && keys[m] == j;
                    assert(b.covers(key_cell(keys[m])));
                }
            }
            if done == 0 {
                assert(keys.len() == 0);
            }
        }
        self.used = bounds;
    }

    /// Take out what a cell holds. The box is worked out again only when the
    /// cell was on one of its edges, since no other cell can shrink it.
    pub fn remove(&mut self, cell: CellRef) -> (r: Option<C>)
        requires
            old(self).well_formed(),
        ensures
            final(self).well_formed(),
            final(self).contents() == old(self).contents().remove(cell),
            old(self).contents().contains_key(cell) ==> r == Some(old(self).contents()[cell]),
            !old(self).contents().contains_key(cell) ==> r is None && final(self).used() == old(self).used(),
            final(self).name_text() == old(self).name_text(),
    {
        let k = pack_key(0, cell.row, cell.col);
        proof {
            lemma_cell_key(cell);
            lemma_pack_bound(0, cell.row, cell.col);
        }
        let ghost before = self.cells@;
        let removed = match self.cells.remove(&k) {
            None => {
                assert(self.cells@ == before);
                assert(self.contents() =~= old(self).contents().remove(cell));
                return None;
            },
            Some(v) => v,
        };
        proof {
            assert(self.contents() =~= old(self).contents().remove(cell)) by {
                assert forall|c: CellRef| #[trigger] self.contents().contains_key(c) <==> old(self).contents().remove(cell).contains_key(c) by {
                    lemma_cell_key(c);
                    if c != cell {
                        assert(cell_key(c) != k);
                    }
                }
                assert forall|c: CellRef| #[trigger] self.contents().contains_key(c) implies self.contents()[c] == old(self).contents().remove(cell)[c] by {
                    lemma_cell_key(c);
                }
            }
            assert(before.dom().contains(k));
            assert(self.cells@.dom() == before.dom().remove(k));
        }
        match self.used {
            Some(used) => {
                if cell.row == used.start.row || cell.row == used.end.row || cell.col == used.start.col || cell.col == used.end.col {
                    self.recompute_used();
                } else {
                    proof {
                        let w1 = choose|w: u128| before.dom().contains(w) && #[trigger] key_cell(w).row == used.start.row;
                        let w2 = choose|w: u128| before.dom().contains(w) && #[trigger] key_cell(w).row == used.end.row;
                        let w3 = choose|w: u128| before.dom().contains(w) && #[trigger] key_cell(w).col == used.start.col;
                        let w4 = choose|w: u128| before.dom().contains(w) && #[trigger] key_cell(w).col == used.end.col;
                        assert(w1 != k && w2 != k && w3 != k && w4 != k);
                        assert(self.cells@.dom().contains(w1));
                        assert(self.cells@.dom().contains(w2));
                        assert(self.cells@.dom().contains(w3));
                        assert(self.cells@.dom().contains(w4));
                        assert(self.cells@.dom().len() > 0);
                    }
                }
            },
            None => {
                assert(false);
            },
        }
        assert(self.contents() =~= old(self).contents().remove(cell));
        Some(removed)
    }

    proof fn lemma_used_edges(&self)
        requires
            self.well_formed(),
        ensures
            self.used() is None <==> self.contents().dom().len() == 0,
            self.used() matches Some(b) ==> {
                &&& b.normalised()
                &&& forall|c: CellRef| #[trigger] self.contents().contains_key(c) ==> b.covers(c)
                &&& exists|c: CellRef| #[trigger] self.contents().contains_key(c) && c.row == b.start.row
                &&& exists|c: CellRef| #[trigger] self.contents().contains_key(c) && c.row == b.end.row
                &&& exists|c: CellRef| #[trigger] self.contents().contains_key(c) && c.col == b.start.col
                &&& exists|c: CellRef| #[trigger] self.contents().contains_key(c) && c.col == b.end.col
            },
    {
        self.lemma_contents();
        if let Some(b) = self.used {
            let w1 = choose|w: u128| self.cells@.dom().contains(w) && #[trigger] key_cell(w).row == b.start.row;
            let w2 = choose|w: u128| self.cells@.dom().contains(w) && #[trigger] key_cell(w).row == b.end.row;
            let w3 = choose|w: u128| self.cells@.dom().contains(w) && #[trigger] key_cell(w).col == b.start.col;
            let w4 = choose|w: u128| self.cells@.dom().contains(w) && #[trigger] key_cell(w).col == b.end.col;
            lemma_key_cell(w1);
            lemma_key_cell(w2);
            lemma_key_cell(w3);
            lemma_key_cell(w4);
            assert(self.contents().contains_key(key_cell(w1)));
            assert(self.contents().contains_key(key_cell(w2)));
            assert(self.contents().contains_key(key_cell(w3)));
            assert(self.contents().contains_key(key_cell(w4)));
        }
    }

    /// The cells `walk` and `filter` hand back: each populated, in the
    /// range, once, with what it holds.
    pub open spec fn lists_cells_in(&self, range: RangeRef, r: Seq<(CellRef, &C)>) -> bool {
        &&& forall|i: int| 0 <= i < r.len() ==> self.contents().contains_key(#[trigger] r[i].0) && range.covers(r[i].0)
            && *r[i].1 == self.contents()[r[i].0]
        &&& forall|c: CellRef| #[trigger] self.contents().contains_key(c) && range.covers(c) ==> exists|i: int|
            0 <= i < r.len() && r[i].0 == c
        &&& forall|i: int, j: int| 0 <= i < j < r.len() ==> r[i].0 != r[j].0
    }

    /// Every populated cell whose position lies inside `range`, each once.
    ///
    /// Picks whichever way round is cheaper: walking the range when it is
    /// small, or filtering the populated cells when the range is large. A
    /// whole-column range takes the second path and costs the data rather than
    /// the address space.
    pub fn cells_in(&self, range: RangeRef) -> (r: Vec<(CellRef, &C)>)
        requires
            self.well_formed(),
            range.normalised(),
            range.end.row - range.start.row < u32::MAX,
            range.end.col - range.start.col < u32::MAX,
        ensures
            self.lists_cells_in(range, r@),
    {
        let populated = self.cells.len() as u64;
        let area = range.area();
        if (area as u128) <= (populated as u128) * 4 && area <= usize::MAX as u64 {
            self.walk(range)
        } else {
            self.filter(range)
        }
    }

    fn walk(&self, range: RangeRef) -> (r: Vec<(CellRef, &C)>)
        requires
            self.well_formed(),
            range.normalised(),
            range.cell_count() <= usize::MAX,
        ensures
            self.lists_cells_in(range, r@),
    {
        let all = range.cells();
        let mut out: Vec<(CellRef, &C)> = Vec::new();
        let ghost mut from: Seq<int> = Seq::empty();
        let mut i: usize = 0;
        while i < all.len()
            invariant
                i <= all@.len(),
                all@.len() == range.cell_count(),
                range.normalised(),
                forall|m: int| 0 <= m < all@.len() ==> #[trigger] all@[m] == range.nth_in_reading_order(m),
                self.well_formed(),
                out@.len() == from.len(),
                forall|m: int| 0 <= m < out@.len() ==> 0 <= #[trigger] from[m] < i && out@[m].0 == all@[from[m]],
                forall|m: int, n: int| 0 <= m < n < out@.len() ==> from[m] < from[n],
                forall|m: int| 0 <= m < out@.len() ==> self.contents().contains_key(#[trigger] out@[m].0)
                    && *out@[m].1 == self.contents()[out@[m].0],
                forall|m: int| 0 <= m < i && self.contents().contains_key(#[trigger] all@[m]) ==> exists|n: int|
                    0 <= n < out@.len() && from[n] == m,
            decreases all.len() - i,
        {
            let at = all[i];
            let ghost prev = from;
            let ghost prev_len = out@.len();
            match self.get(at) {
                Some(content) => {
                    out.push((at, content));
                    proof {
                        from = from.push(i as int);
                        assert(out@[out@.len() - 1].0 == at);
                    }
                },
                None => {},
            }
            proof {
                assert forall|m: int| 0 <= m < i + 1 && self.contents().contains_key(#[trigger] all@[m]) implies exists|n: int|
                    0 <= n < out@.len() && from[n] == m by {
                    if m < i {
                        let n = choose|n: int| 0 <= n < prev_len && prev[n] == m;
                        assert(from[n] == m);
                    } else {
                        assert(from[prev_len as int] == m);
                    }
                }
            }
            i = i + 1;
        }
        proof {
            assert forall|m: int| 0 <= m < out@.len() implies self.contents().contains_key(#[trigger] out@[m].0) && range.covers(out@[m].0)
                && *out@[m].1 == self.contents()[out@[m].0] by {
                lemma_reading_order_covered(range, from[m]);
            }
            assert forall|c: CellRef| #[trigger] self.contents().contains_key(c) && range.covers(c) implies exists|n: int|
                0 <= n < out@.len() && out@[n].0 == c by {
                let m = lemma_reading_order_index(range, c);
                assert(all@[m] == c);
                let n = choose|n: int| 0 <= n < out@.len() && from[n] == m;
                assert(out@[n].0 == c);
            }
            assert forall|m: int, n: int| 0 <= m < n < out@.len() implies out@[m].0 != out@[n].0 by {
                lemma_reading_order_distinct(range, from[m], from[n]);
            }
        }
        out
    }

    fn filter(&self, range: RangeRef) -> (r: Vec<(CellRef, &C)>)
        requires
            self.well_formed(),
        ensures
            self.lists_cells_in(range, r@),
    {
        let ghost keys = vstd::std_specs::hash::spec_keys_iter(&self.cells).remaining().unref();
        let ghost mut done: int = 0;
        let ghost mut from: Seq<int> = Seq::empty();
        let mut out: Vec<(CellRef, &C)> = Vec::new();
        proof {
            assert(keys.to_set() == self.cells@.dom());
        }
        for k in it: self.cells.keys()
            invariant
                it.seq().unref() == keys,
                done == it.index(),
                keys.to_set() == self.cells@.dom(),
                keys.no_duplicates(),
                self.well_formed(),
                out@.len() == from.len(),
                forall|m: int| 0 <= m < out@.len() ==> 0 <= #[trigger] from[m] < done && out@[m].0 == key_cell(keys[from[m]]),
                forall|m: int, n: int| 0 <= m < n < out@.len() ==> from[m] < from[n],
                forall|m: int| 0 <= m < out@.len() ==> self.contents().contains_key(#[trigger] out@[m].0)
                    && range.covers(out@[m].0) && *out@[m].1 == self.contents()[out@[m].0],
                forall|m: int| 0 <= m < done && range.covers(key_cell(#[trigger] keys[m])) ==> exists|n: int|
                    0 <= n < out@.len() && from[n] == m,
        {
            let ghost here = done;
            proof {
                assert(keys[here] == *k);
                assert(keys.contains(*k));
                assert(self.cells@.dom().contains(*k));
                lemma_key_cell(*k);
            }
            let at = CellRef::new(((*k >> 32u128) & 0xFFFF_FFFFu128) as u32, (*k & 0xFFFF_FFFFu128) as u32);
            assert(at == key_cell(*k));
            let ghost prev = from;
            let ghost prev_len = out@.len();
            if range.contains(at) {
                match self.get(at) {
                    Some(content) => {
                        out.push((at, content));
                        proof {
                            from = from.push(here);
                        }
                    },
                    None => {
                        assert(false);
                    },
                }
            }
            proof {
                assert forall|m: int| 0 <= m < here + 1 && range.covers(key_cell(#[trigger] keys[m])) implies exists|n: int|
                    0 <= n < out@.len() && from[n] == m by {
                    if m < here {
                        let n = choose|n: int| 0 <= n < prev_len && prev[n] == m;
                        assert(from[n] == m);
                    } else {
                        assert(from[prev_len as int] == m);
                    }
                }
                done = done + 1;
            }
        }
        proof {
            assert forall|c: CellRef| #[trigger] self.contents().contains_key(c) && range.covers(c) implies exists|n: int|
                0 <= n < out@.len() && out@[n].0 == c by {
                lemma_cell_key(c);
                assert(keys.to_set().contains(cell_key(c)));
                assert(keys.contains(cell_key(c)));
                let m = choose|m: int| 0 <= m < keys.len() && keys[m] == cell_key(c);
                let n = choose|n: int| 0 <= n < out@.len() && from[n] == m;
                assert(out@[n].0 == c);
            }
            assert forall|m: int, n: int| 0 <= m < n < out@.len() implies out@[m].0 != out@[n].0 by {
                let a = keys[from[m]];
                let b = keys[from[n]];
                assert(a != b);
                assert(keys.contains(a));
                assert(keys.contains(b));
                assert(keys.to_set().contains(a));
                assert(keys.to_set().contains(b));
                assert(self.cells@.contains_key(a));
                assert(self.cells@.contains_key(b));
                lemma_key_cell(a);
                lemma_key_cell(b);
            }
        }
        out
    }

    /// Every populated cell, in no particular order, each once.
    pub fn iter(&self) -> (r: Vec<(CellRef, &C)>)
        requires
            self.well_formed(),
        ensures
            forall|i: int| 0 <= i < r@.len() ==> self.contents().contains_key(#[trigger] r@[i].0)
                && *r@[i].1 == self.contents()[r@[i].0],
            forall|c: CellRef| #[trigger] self.contents().contains_key(c) ==> exists|i: int| 0 <= i < r@.len() && r@[i].0 == c,
            forall|i: int, j: int| 0 <= i < j < r@.len() ==> r@[i].0 != r@[j].0,
    {
        let everything = RangeRef::new(CellRef::new(0, 0), CellRef::new(u32::MAX, u32::MAX));
        let r = self.filter(everything);
        proof {
            assert forall|c: CellRef| #[trigger] self.contents().contains_key(c) implies exists|i: int| 0 <= i < r@.len() && r@[i].0 == c by {
                assert(everything.covers(c));
            }
        }
        r
    }
}

/// Where the `i`-th cell of a range, read left to right then top to bottom,
/// lies: inside the range.
proof fn lemma_reading_order_covered(r: RangeRef, i: int)
    requires
        r.normalised(),
        0 <= i < r.cell_count(),
    ensures
        r.covers(r.nth_in_reading_order(i)),
{
    let w = r.end.col - r.start.col + 1;
    let h = r.end.row - r.start.row + 1;
    assert(0 <= i / w < h && 0 <= i % w < w) by (nonlinear_arith)
        requires
            w >= 1,
            h >= 1,
            0 <= i < h * w,
    ;
}

/// Every cell of a range has its place in reading order.
proof fn lemma_reading_order_index(r: RangeRef, c: CellRef) -> (i: int)
    requires
        r.normalised(),
        r.covers(c),
    ensures
        0 <= i < r.cell_count(),
        r.nth_in_reading_order(i) == c,
{
    let w: int = r.end.col - r.start.col + 1;
    let h: int = r.end.row - r.start.row + 1;
    let y: int = c.row - r.start.row;
    let x: int = c.col - r.start.col;
    let i = y * w + x;
    assert(i / w == y && i % w == x && 0 <= i < h * w) by (nonlinear_arith)
        requires
            0 <= x < w,
            0 <= y < h,
            i == y * w + x,
    ;
    i
}

/// Different places in reading order are different cells.
proof fn lemma_reading_order_distinct(r: RangeRef, i: int, j: int)
    requires
        r.normalised(),
        0 <= i < j < r.cell_count(),
    ensures
        r.nth_in_reading_order(i) != r.nth_in_reading_order(j),
{
    let w: int = r.end.col - r.start.col + 1;
    let h: int = r.end.row - r.start.row + 1;
    assert(0 <= i / w < h && 0 <= i % w < w && 0 <= j / w < h && 0 <= j % w < w) by (nonlinear_arith)
        requires
            w >= 1,
            h >= 1,
            0 <= i < h * w,
            0 <= j < h * w,
    ;
    assert(i == w * (i / w) + i % w && j == w * (j / w) + j % w) by (nonlinear_arith)
        requires
            w >= 1,
    ;
    if r.nth_in_reading_order(i) == r.nth_in_reading_order(j) {
        assert(i / w == j / w);
        assert(i % w == j % w);
    }
}

/// The box a sheet keeps is exactly the bounding box of its populated cells:
/// there is none when nothing is populated; otherwise it covers every
/// populated cell and each of its four edges has one on it.
pub proof fn lemma_used_is_the_bounding_box<C>(s: &Sheet<C>)
    requires
        s.well_formed(),
    ensures
        s.used() is None <==> s.contents().dom().len() == 0,
        s.used() matches Some(b) ==> {
            &&& b.normalised()
            &&& forall|c: CellRef| #[trigger] s.contents().contains_key(c) ==> b.covers(c)
            &&& exists|c: CellRef| #[trigger] s.contents().contains_key(c) && c.row == b.start.row
            &&& exists|c: CellRef| #[trigger] s.contents().contains_key(c) && c.row == b.end.row
            &&& exists|c: CellRef| #[trigger] s.contents().contains_key(c) && c.col == b.start.col
            &&& exists|c: CellRef| #[trigger] s.contents().contains_key(c) && c.col == b.end.col
        },
{
    s.lemma_used_edges();
}

} // verus!
