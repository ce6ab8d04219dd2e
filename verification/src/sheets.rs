//! The sheets of a workbook: their ids, their names and their tab order.
//!
//! An id is the sheet's slot and is never reused: removing a sheet leaves a
//! hole rather than renumbering the rest, so an id never comes to mean a
//! different sheet. Names are unique ignoring ASCII case, as a formula looks a
//! sheet up, and a workbook always keeps at least one sheet.
//!
//! What a sheet holds (`T`) is carried through untouched.

use vstd::prelude::*;

use crate::coord::SheetId;
use crate::lexer::{is_whitespace, whitespace};
use crate::text::chars_of;
use crate::value::{chars_equal_ignoring_ascii_case, fold_ascii, same_ignoring_ascii_case};
use crate::workbook::SheetError;

verus! {

broadcast use vstd::string::group_string_axioms;

/// A sheet under its name.
pub struct NamedSheet<T> {
    pub name: String,
    pub content: T,
}

/// The sheets of a workbook.
pub struct Sheets<T> {
    /// Indexed by sheet id; a removed sheet leaves `None`.
    slots: Vec<Option<NamedSheet<T>>>,
    /// Tab order, which is what the user sees.
    order: Vec<SheetId>,
}

/// Whether a name is nothing but white space, which a sheet cannot be called.
pub open spec fn blank_name(name: Seq<char>) -> bool {
    forall|i: int| 0 <= i < name.len() ==> whitespace(#[trigger] name[i])
}

/// Comparing names ignoring ASCII case is symmetric and transitive.
pub proof fn lemma_same_name_is_an_equivalence(a: Seq<char>, b: Seq<char>, c: Seq<char>)
    ensures
        same_ignoring_ascii_case(a, a),
        same_ignoring_ascii_case(a, b) ==> same_ignoring_ascii_case(b, a),
        same_ignoring_ascii_case(a, b) && same_ignoring_ascii_case(b, c) ==> same_ignoring_ascii_case(a, c),
{
    if same_ignoring_ascii_case(a, b) {
        assert forall|i: int| 0 <= i < b.len() implies fold_ascii(#[trigger] b[i]) == fold_ascii(a[i]) by {
            assert(fold_ascii(a[i]) == fold_ascii(b[i]));
        }
        if same_ignoring_ascii_case(b, c) {
            assert forall|i: int| 0 <= i < a.len() implies fold_ascii(#[trigger] a[i]) == fold_ascii(c[i]) by {
                assert(fold_ascii(a[i]) == fold_ascii(b[i]));
                assert(fold_ascii(b[i]) == fold_ascii(c[i]));
            }
        }
    }
}

impl<T> Sheets<T> {
    /// Every slot, by id.
    pub closed spec fn slots(&self) -> Seq<Option<NamedSheet<T>>> {
        self.slots@
    }

    /// The live sheets' ids, in tab order.
    pub closed spec fn ids(&self) -> Seq<SheetId> {
        self.order@
    }

    /// Whether an id names a sheet that is still there.
    pub open spec fn is_live(&self, id: SheetId) -> bool {
        id.0 < self.slots().len() && self.slots()[id.0 as int] is Some
    }

    /// The name of a live sheet.
    pub open spec fn name_of(&self, id: SheetId) -> Seq<char> {
        self.slots()[id.0 as int]->Some_0.name@
    }

    /// The first sheet in tab order, from the `i`-th on, with this name
    /// ignoring ASCII case.
    pub open spec fn named_from(&self, name: Seq<char>, i: int) -> Option<SheetId>
        decreases self.ids().len() - i,
    {
        if i < 0 || i >= self.ids().len() {
            None
        } else if same_ignoring_ascii_case(self.name_of(self.ids()[i]), name) {
            Some(self.ids()[i])
        } else {
            self.named_from(name, i + 1)
        }
    }

    /// The sheet with this name, ignoring ASCII case.
    pub open spec fn named(&self, name: Seq<char>) -> Option<SheetId> {
        self.named_from(name, 0)
    }

    /// Ids fit, each live sheet is in the tab order exactly once and nothing
    /// else is, names are unique ignoring ASCII case, and there is a sheet.
    pub open spec fn well_formed(&self) -> bool {
        &&& self.slots().len() <= u32::MAX + 1
        &&& self.ids().len() >= 1
        &&& self.ids().no_duplicates()
        &&& forall|k: int| 0 <= k < self.ids().len() ==> self.is_live(#[trigger] self.ids()[k])
        &&& forall|i: int|
            0 <= i < self.slots().len() && #[trigger] self.slots()[i] is Some ==> self.ids().contains(
                SheetId(i as u32),
            )
        &&& forall|j: int, k: int|
            0 <= j < self.ids().len() && 0 <= k < self.ids().len() && j != k ==> !same_ignoring_ascii_case(
                self.name_of(#[trigger] self.ids()[j]),
                self.name_of(#[trigger] self.ids()[k]),
            )
    }

    /// A workbook's sheets: one, called `Sheet1`.
    pub fn new(content: T) -> (s: Self)
        ensures
            s.well_formed(),
            s.ids() == seq![SheetId(0)],
            s.is_live(SheetId(0)),
            s.name_of(SheetId(0)) == "Sheet1"@,
            s.slots()[0]->Some_0.content == content,
    {
        let mut slots: Vec<Option<NamedSheet<T>>> = Vec::new();
        slots.push(Some(NamedSheet { name: String::from_str("Sheet1"), content }));
        let mut order: Vec<SheetId> = Vec::new();
        order.push(SheetId(0));
        let s = Sheets { slots, order };
        assert(s.ids() =~= seq![SheetId(0)]);
        assert(s.ids()[0] == SheetId(0));
        assert(s.ids().contains(SheetId(0)));
        s
    }

    fn matches_name(&self, id: SheetId, name: &Vec<char>) -> (b: bool)
        requires
            self.is_live(id),
        ensures
            b == same_ignoring_ascii_case(self.name_of(id), name@),
    {
        match &self.slots[id.0 as usize] {
            Some(sheet) => {
                let held = chars_of(sheet.name.as_str());
                chars_equal_ignoring_ascii_case(&held, name)
            },
            None => false,
        }
    }

    /// The sheet with this name, ignoring ASCII case.
    pub fn sheet_id(&self, name: &str) -> (r: Option<SheetId>)
        requires
            self.well_formed(),
        ensures
            r == self.named(name@),
    {
        let wanted = chars_of(name);
        let mut i: usize = 0;
        while i < self.order.len()
            invariant
                self.well_formed(),
                i <= self.ids().len(),
                wanted@ == name@,
                self.named(name@) == self.named_from(name@, i as int),
            decreases self.order.len() - i,
        {
            let id = self.order[i];
            assert(self.is_live(self.ids()[i as int]));
            if self.matches_name(id, &wanted) {
                return Some(id);
            }
            i = i + 1;
        }
        None
    }

    /// Where in the tab order the first sheet with this name is, ignoring
    /// ASCII case.
    pub open spec fn position_from(&self, name: Seq<char>, i: int) -> Option<int>
        decreases self.ids().len() - i,
    {
        if i < 0 || i >= self.ids().len() {
            None
        } else if same_ignoring_ascii_case(self.name_of(self.ids()[i]), name) {
            Some(i)
        } else {
            self.position_from(name, i + 1)
        }
    }

    /// Where in the tab order a sheet of this name is.
    pub fn position_of(&self, name: &str) -> (r: Option<usize>)
        requires
            self.well_formed(),
        ensures
            r matches Some(i) ==> self.position_from(name@, 0) == Some(i as int),
            r is None ==> self.position_from(name@, 0) is None,
    {
        let wanted = chars_of(name);
        let mut i: usize = 0;
        while i < self.order.len()
            invariant
                self.well_formed(),
                i <= self.ids().len(),
                wanted@ == name@,
                self.position_from(name@, 0) == self.position_from(name@, i as int),
            decreases self.order.len() - i,
        {
            let id = self.order[i];
            assert(self.is_live(self.ids()[i as int]));
            if self.matches_name(id, &wanted) {
                return Some(i);
            }
            i = i + 1;
        }
        None
    }

    /// The sheets a three-dimensional reference such as `Jan:Mar!A1` spans:
    /// both ends and everything between them in tab order, whichever way
    /// round they are written. `None` when either end names no sheet.
    pub fn sheets_between(&self, first: &str, last: &str) -> (r: Option<Vec<SheetId>>)
        requires
            self.well_formed(),
        ensures
            match (self.position_from(first@, 0), self.position_from(last@, 0)) {
                (Some(a), Some(b)) => r matches Some(v) && v@ == self.ids().subrange(
                    if a <= b { a } else { b },
                    (if a <= b { b } else { a }) + 1,
                ),
                _ => r is None,
            },
    {
        let a = match self.position_of(first) {
            Some(a) => a,
            None => {
                return None;
            },
        };
        let b = match self.position_of(last) {
            Some(b) => b,
            None => {
                return None;
            },
        };
        proof {
            self.lemma_position_bounds(first@, 0);
            self.lemma_position_bounds(last@, 0);
        }
        let lo = if a <= b { a } else { b };
        let hi = if a <= b { b } else { a };
        let mut out: Vec<SheetId> = Vec::new();
        let count = self.order.len();
        let mut k = lo;
        while k <= hi
            invariant
                lo <= k <= hi + 1,
                hi < self.ids().len(),
                count == self.ids().len(),
                out@ == self.ids().subrange(lo as int, k as int),
            decreases hi + 1 - k,
        {
            out.push(self.order[k]);
            k = k + 1;
            assert(out@ =~= self.ids().subrange(lo as int, k as int));
        }
        Some(out)
    }

    proof fn lemma_position_bounds(&self, name: Seq<char>, i: int)
        requires
            0 <= i,
        ensures
            self.position_from(name, i) matches Some(k) ==> i <= k < self.ids().len(),
        decreases self.ids().len() - i,
    {
        if i < self.ids().len() && !same_ignoring_ascii_case(self.name_of(self.ids()[i]), name) {
            self.lemma_position_bounds(name, i + 1);
        }
    }

    /// The sheet with this id, if it is still there.
    pub fn sheet(&self, id: SheetId) -> (r: Option<&NamedSheet<T>>)
        ensures
            self.is_live(id) ==> r == Some(&self.slots()[id.0 as int]->Some_0),
            !self.is_live(id) ==> r is None,
    {
        if (id.0 as usize) < self.slots.len() {
            match &self.slots[id.0 as usize] {
                Some(sheet) => Some(sheet),
                None => None,
            }
        } else {
            None
        }
    }

    /// Sheet ids in tab order.
    pub fn sheet_order(&self) -> (r: &[SheetId])
        ensures
            r@ == self.ids(),
    {
        self.order.as_slice()
    }

    /// The first sheet in tab order.
    pub fn first_sheet(&self) -> (id: SheetId)
        requires
            self.well_formed(),
        ensures
            id == self.ids()[0],
    {
        self.order[0]
    }

    fn name_is_blank(name: &str) -> (b: bool)
        ensures
            b == blank_name(name@),
    {
        let chars = chars_of(name);
        let mut i: usize = 0;
        while i < chars.len()
            invariant
                i <= chars@.len(),
                chars@ == name@,
                forall|j: int| 0 <= j < i ==> whitespace(#[trigger] chars@[j]),
            decreases chars.len() - i,
        {
            if !is_whitespace(chars[i]) {
                return false;
            }
            i = i + 1;
        }
        true
    }

    /// Add a sheet at the end of the tab order. It gets the next id.
    ///
    /// Refused for a name that is only white space, and for one another
    /// sheet already has, ignoring ASCII case.
    pub fn add_sheet(&mut self, name: &str, content: T) -> (r: Result<SheetId, SheetError>)
        requires
            old(self).well_formed(),
            old(self).slots().len() < u32::MAX,
        ensures
            final(self).well_formed(),
            blank_name(name@) ==> r == Err::<SheetId, SheetError>(SheetError::NameEmpty),
            !blank_name(name@) && old(self).named(name@) is Some ==> r == Err::<SheetId, SheetError>(
                SheetError::NameTaken,
            ),
            r is Err ==> final(self).slots() == old(self).slots() && final(self).ids() == old(self).ids(),
            !blank_name(name@) && old(self).named(name@) is None ==> r == Ok::<SheetId, SheetError>(
                SheetId(old(self).slots().len() as u32),
            ),
            r matches Ok(id) ==> {
                &&& final(self).ids() == old(self).ids().push(id)
                &&& final(self).slots() == old(self).slots().push(
                    final(self).slots()[id.0 as int],
                )
                &&& final(self).is_live(id)
                &&& final(self).name_of(id) == name@
                &&& final(self).slots()[id.0 as int]->Some_0.content == content
                &&& final(self).named(name@) == Some(id)
            },
    {
        if Self::name_is_blank(name) {
            return Err(SheetError::NameEmpty);
        }
        if self.sheet_id(name).is_some() {
            return Err(SheetError::NameTaken);
        }
        proof {
            self.lemma_unnamed(name@, 0);
        }
        let id = SheetId(self.slots.len() as u32);
        let ghost old_ids = self.ids();
        let ghost old_slots = self.slots();
        self.slots.push(Some(NamedSheet { name: String::from_str(name), content }));
        self.order.push(id);
        proof {
            assert(!old_ids.contains(id)) by {
                if old_ids.contains(id) {
                    let k = choose|k: int| 0 <= k < old_ids.len() && old_ids[k] == id;
                    assert(self.is_live(old_ids[k]));
                }
            }
            assert forall|k: int| 0 <= k < self.ids().len() implies self.is_live(#[trigger] self.ids()[k]) by {
                if k < old_ids.len() {
                    assert(self.ids()[k] == old_ids[k]);
                    assert(self.slots()[old_ids[k].0 as int] == old_slots[old_ids[k].0 as int]);
                }
            }
            assert forall|i: int| 0 <= i < self.slots().len() && #[trigger] self.slots()[i] is Some implies self.ids().contains(
                SheetId(i as u32),
            ) by {
                if i < old_slots.len() {
                    assert(self.slots()[i] == old_slots[i]);
                    assert(old_ids.contains(SheetId(i as u32)));
                    let k = choose|k: int| 0 <= k < old_ids.len() && old_ids[k] == SheetId(i as u32);
                    assert(self.ids()[k] == SheetId(i as u32));
                } else {
                    assert(self.ids()[old_ids.len() as int] == SheetId(i as u32));
                }
            }
            assert forall|j: int, k: int|
                0 <= j < self.ids().len() && 0 <= k < self.ids().len() && j != k implies !same_ignoring_ascii_case(
                self.name_of(#[trigger] self.ids()[j]),
                self.name_of(#[trigger] self.ids()[k]),
            ) by {
                if j < old_ids.len() {
                    assert(self.name_of(self.ids()[j]) == old_name(old_slots, old_ids[j]));
                }
                if k < old_ids.len() {
                    assert(self.name_of(self.ids()[k]) == old_name(old_slots, old_ids[k]));
                }
                if j == old_ids.len() {
                    lemma_same_name_is_an_equivalence(name@, self.name_of(self.ids()[k]), name@);
                }
            }
            assert(self.ids().no_duplicates()) by {
                assert forall|a: int, b: int| 0 <= a < self.ids().len() && 0 <= b < self.ids().len() && a != b implies self.ids()[a] != self.ids()[b] by {
                    if a < old_ids.len() && b < old_ids.len() {
                        assert(self.ids()[a] == old_ids[a]);
                        assert(self.ids()[b] == old_ids[b]);
                    } else if a < old_ids.len() {
                        assert(old_ids.contains(old_ids[a]));
                    } else if b < old_ids.len() {
                        assert(old_ids.contains(old_ids[b]));
                    }
                }
            }
            assert(self.slots() =~= old_slots.push(self.slots()[id.0 as int]));
            let last = old_ids.len() as int;
            assert(self.ids()[last] == id);
            lemma_same_name_is_an_equivalence(name@, name@, name@);
            assert forall|k: int| 0 <= k < last implies !same_ignoring_ascii_case(self.name_of(#[trigger] self.ids()[k]), name@) by {
                assert(self.ids()[k] == old_ids[k]);
                assert(self.name_of(self.ids()[k]) == old_name(old_slots, old_ids[k]));
            }
            self.lemma_named_at(name@, 0, last);
        }
        Ok(id)
    }

    /// Rename a sheet.
    ///
    /// Refused for a name that is only white space, for one another sheet
    /// already has ignoring ASCII case (a sheet may take its own name in a
    /// different case), and for a sheet that is not there.
    pub fn rename_sheet(&mut self, id: SheetId, name: &str) -> (r: Result<(), SheetError>)
        requires
            old(self).well_formed(),
        ensures
            final(self).well_formed(),
            blank_name(name@) ==> r == Err::<(), SheetError>(SheetError::NameEmpty),
            !blank_name(name@) && (old(self).named(name@) matches Some(e) && e != id) ==> r == Err::<
                (),
                SheetError,
            >(SheetError::NameTaken),
            !blank_name(name@) && !(old(self).named(name@) matches Some(e) && e != id) && !old(
                self,
            ).is_live(id) ==> r == Err::<(), SheetError>(SheetError::NoSuchSheet),
            !blank_name(name@) && !(old(self).named(name@) matches Some(e) && e != id) && old(
                self,
            ).is_live(id) ==> r is Ok,
            r is Err ==> final(self).slots() == old(self).slots() && final(self).ids() == old(self).ids(),
            r is Ok ==> {
                &&& final(self).ids() == old(self).ids()
                &&& final(self).slots().len() == old(self).slots().len()
                &&& final(self).is_live(id)
                &&& final(self).name_of(id) == name@
                &&& final(self).slots()[id.0 as int]->Some_0.content == old(self).slots()[id.0 as int]->Some_0.content
                &&& forall|i: int| 0 <= i < old(self).slots().len() && i != id.0 ==> final(self).slots()[i] == old(self).slots()[i]
                &&& final(self).named(name@) == Some(id)
            },
    {
        if Self::name_is_blank(name) {
            return Err(SheetError::NameEmpty);
        }
        match self.sheet_id(name) {
            Some(existing) => {
                if existing != id {
                    return Err(SheetError::NameTaken);
                }
            },
            None => {},
        }
        if (id.0 as usize) >= self.slots.len() {
            return Err(SheetError::NoSuchSheet);
        }
        let index = id.0 as usize;
        let ghost old_slots = self.slots();
        let ghost old_ids = self.ids();
        let ghost found = self.named(name@);
        proof {
            if found is None {
                self.lemma_unnamed(name@, 0);
            } else {
                self.lemma_named_finds(name@, 0);
            }
        }
        let slot = self.slots.remove(index);
        match slot {
            None => {
                self.slots.insert(index, None);
                assert(self.slots() =~= old_slots);
                Err(SheetError::NoSuchSheet)
            },
            Some(sheet) => {
                self.slots.insert(index, Some(NamedSheet { name: String::from_str(name), content: sheet.content }));
                proof {
                    assert forall|i: int| 0 <= i < old_slots.len() && i != id.0 implies self.slots()[i] == old_slots[i] by {
                        if i < index {
                        } else {
                        }
                    }
                    assert forall|k: int| 0 <= k < self.ids().len() implies self.is_live(#[trigger] self.ids()[k]) by {
                        assert(self.ids()[k] == old_ids[k]);
                    }
                    assert forall|i: int| 0 <= i < self.slots().len() && #[trigger] self.slots()[i] is Some implies self.ids().contains(
                        SheetId(i as u32),
                    ) by {
                        if i != id.0 {
                            assert(self.slots()[i] == old_slots[i]);
                        }
                    }
                    assert forall|j: int, k: int|
                        0 <= j < self.ids().len() && 0 <= k < self.ids().len() && j != k implies !same_ignoring_ascii_case(
                        self.name_of(#[trigger] self.ids()[j]),
                        self.name_of(#[trigger] self.ids()[k]),
                    ) by {
                        let a = self.ids()[j];
                        let b = self.ids()[k];
                        assert(a != b);
                        if a != id && b != id {
                            assert(self.name_of(a) == old_name(old_slots, a));
                            assert(self.name_of(b) == old_name(old_slots, b));
                        } else if a == id {
                            assert(self.name_of(b) == old_name(old_slots, b));
                            lemma_same_name_is_an_equivalence(old_name(old_slots, b), name@, old_name(old_slots, id));
                            lemma_same_name_is_an_equivalence(name@, old_name(old_slots, b), name@);
                            if found is Some {
                                let w = choose|w: int|
                                    0 <= w < old_ids.len() && old_ids[w] == found->Some_0 && same_ignoring_ascii_case(
                                        old_name(old_slots, old_ids[w]),
                                        name@,
                                    );
                                assert(old_ids[w] == id);
                                assert(old_ids[k] == b);
                                lemma_same_name_is_an_equivalence(old_name(old_slots, b), name@, old_name(old_slots, id));
                                lemma_same_name_is_an_equivalence(old_name(old_slots, id), name@, name@);
                                lemma_same_name_is_an_equivalence(name@, old_name(old_slots, id), name@);
                            } else {
                                assert(!same_ignoring_ascii_case(old_name(old_slots, old_ids[k]), name@));
                            }
                        } else {
                            assert(self.name_of(a) == old_name(old_slots, a));
                            lemma_same_name_is_an_equivalence(old_name(old_slots, a), name@, old_name(old_slots, id));
                            if found is Some {
                                let w = choose|w: int|
                                    0 <= w < old_ids.len() && old_ids[w] == found->Some_0 && same_ignoring_ascii_case(
                                        old_name(old_slots, old_ids[w]),
                                        name@,
                                    );
                                assert(old_ids[w] == id);
                                assert(old_ids[j] == a);
                                lemma_same_name_is_an_equivalence(name@, old_name(old_slots, id), name@);
                            } else {
                                assert(!same_ignoring_ascii_case(old_name(old_slots, old_ids[j]), name@));
                            }
                        }
                    }
                    assert(self.ids() == old_ids);
                    assert(old_ids.contains(id));
                    let m = choose|m: int| 0 <= m < old_ids.len() && old_ids[m] == id;
                    lemma_same_name_is_an_equivalence(name@, name@, name@);
                    assert(self.name_of(self.ids()[m]) == name@);
                    assert forall|k: int| 0 <= k < m implies !same_ignoring_ascii_case(self.name_of(#[trigger] self.ids()[k]), name@) by {
                        assert(self.ids()[k] != self.ids()[m]);
                        lemma_same_name_is_an_equivalence(self.name_of(self.ids()[k]), name@, self.name_of(self.ids()[m]));
                    }
                    self.lemma_named_at(name@, 0, m);
                }
                Ok(())
            },
        }
    }

    /// Remove a sheet, handing back what it held. Its id is not reused.
    ///
    /// Refused for the last sheet, and for a sheet that is not there.
    pub fn remove_sheet(&mut self, id: SheetId) -> (r: Result<T, SheetError>)
        requires
            old(self).well_formed(),
        ensures
            final(self).well_formed(),
            old(self).ids().len() <= 1 ==> r is Err && r->Err_0 == SheetError::LastSheet,
            old(self).ids().len() > 1 && !old(self).is_live(id) ==> r is Err && r->Err_0 == SheetError::NoSuchSheet,
            r is Err ==> final(self).slots() == old(self).slots() && final(self).ids() == old(self).ids(),
            old(self).ids().len() > 1 && old(self).is_live(id) ==> {
                &&& r matches Ok(t) && t == old(self).slots()[id.0 as int]->Some_0.content
                &&& final(self).slots() == old(self).slots().update(id.0 as int, None)
                &&& exists|k: int| 0 <= k < old(self).ids().len() && old(self).ids()[k] == id && final(self).ids() == old(self).ids().remove(k)
                &&& !final(self).is_live(id)
            },
    {
        if self.order.len() <= 1 {
            return Err(SheetError::LastSheet);
        }
        if (id.0 as usize) >= self.slots.len() {
            return Err(SheetError::NoSuchSheet);
        }
        let index = id.0 as usize;
        let ghost old_slots = self.slots();
        let ghost old_ids = self.ids();
        let slot = self.slots.remove(index);
        match slot {
            None => {
                self.slots.insert(index, None);
                assert(self.slots() =~= old_slots);
                Err(SheetError::NoSuchSheet)
            },
            Some(sheet) => {
                self.slots.insert(index, None);
                assert(self.slots() =~= old_slots.update(index as int, None));
                assert(old_ids.contains(id));
                let mut k: usize = 0;
                while k < self.order.len() && self.order[k] != id
                    invariant
                        self.order@ == old_ids,
                        k <= old_ids.len(),
                        old_ids.contains(id),
                        forall|m: int| 0 <= m < k ==> old_ids[m] != id,
                    decreases self.order.len() - k,
                {
                    k = k + 1;
                }
                assert(k < old_ids.len() && old_ids[k as int] == id) by {
                    if k == old_ids.len() {
                        let w = choose|w: int| 0 <= w < old_ids.len() && old_ids[w] == id;
                        assert(old_ids[w] != id);
                    }
                }
                self.order.remove(k);
                proof {
                    let new_ids = self.ids();
                    assert(new_ids == old_ids.remove(k as int));
                    assert forall|m: int| 0 <= m < new_ids.len() implies self.is_live(#[trigger] new_ids[m]) by {
                        let o = if m < k { m } else { m + 1 };
                        assert(new_ids[m] == old_ids[o]);
                        assert(o != k);
                        assert(old_ids[o] != old_ids[k as int]);
                    }
                    assert forall|i: int| 0 <= i < self.slots().len() && #[trigger] self.slots()[i] is Some implies new_ids.contains(
                        SheetId(i as u32),
                    ) by {
                        assert(i != index);
                        assert(old_slots[i] is Some);
                        assert(old_ids.contains(SheetId(i as u32)));
                        let w = choose|w: int| 0 <= w < old_ids.len() && old_ids[w] == SheetId(i as u32);
                        assert(w != k);
                        if w < k {
                            assert(new_ids[w] == SheetId(i as u32));
                        } else {
                            assert(new_ids[w - 1] == SheetId(i as u32));
                        }
                    }
                    assert forall|a: int, b: int|
                        0 <= a < new_ids.len() && 0 <= b < new_ids.len() && a != b implies !same_ignoring_ascii_case(
                        self.name_of(#[trigger] new_ids[a]),
                        self.name_of(#[trigger] new_ids[b]),
                    ) by {
                        let oa = if a < k { a } else { a + 1 };
                        let ob = if b < k { b } else { b + 1 };
                        assert(new_ids[a] == old_ids[oa]);
                        assert(new_ids[b] == old_ids[ob]);
                        assert(old_ids[oa] != id);
                        assert(old_ids[ob] != id);
                        assert(self.name_of(new_ids[a]) == old_name(old_slots, old_ids[oa]));
                        assert(self.name_of(new_ids[b]) == old_name(old_slots, old_ids[ob]));
                    }
                    assert(new_ids.no_duplicates()) by {
                        assert forall|a: int, b: int| 0 <= a < new_ids.len() && 0 <= b < new_ids.len() && a != b implies new_ids[a] != new_ids[b] by {
                            let oa = if a < k { a } else { a + 1 };
                            let ob = if b < k { b } else { b + 1 };
                            assert(new_ids[a] == old_ids[oa]);
                            assert(new_ids[b] == old_ids[ob]);
                        }
                    }
                }
                Ok(sheet.content)
            },
        }
    }

    proof fn lemma_named_at(&self, name: Seq<char>, i: int, m: int)
        requires
            0 <= i <= m < self.ids().len(),
            same_ignoring_ascii_case(self.name_of(self.ids()[m]), name),
            forall|k: int| i <= k < m ==> !same_ignoring_ascii_case(self.name_of(#[trigger] self.ids()[k]), name),
        ensures
            self.named_from(name, i) == Some(self.ids()[m]),
        decreases m - i,
    {
        if i < m {
            self.lemma_named_at(name, i + 1, m);
        }
    }

    proof fn lemma_unnamed(&self, name: Seq<char>, i: int)
        requires
            0 <= i,
            self.named_from(name, i) is None,
        ensures
            forall|k: int| i <= k < self.ids().len() ==> !same_ignoring_ascii_case(
                self.name_of(#[trigger] self.ids()[k]),
                name,
            ),
        decreases self.ids().len() - i,
    {
        if i < self.ids().len() {
            self.lemma_unnamed(name, i + 1);
        }
    }

    proof fn lemma_named_finds(&self, name: Seq<char>, i: int)
        requires
            0 <= i,
            self.named_from(name, i) matches Some(id),
        ensures
            self.named_from(name, i) matches Some(id) && exists|k: int|
                i <= k < self.ids().len() && self.ids()[k] == id && same_ignoring_ascii_case(
                    self.name_of(self.ids()[k]),
                    name,
                ),
        decreases self.ids().len() - i,
    {
        if i < self.ids().len() && !same_ignoring_ascii_case(self.name_of(self.ids()[i]), name) {
            self.lemma_named_finds(name, i + 1);
        }
    }
}

/// The name a slot held.
pub open spec fn old_name<T>(slots: Seq<Option<NamedSheet<T>>>, id: SheetId) -> Seq<char> {
    slots[id.0 as int]->Some_0.name@
}

} // verus!
