//! What the window hands the application: keys by name, and the tabs it
//! draws along the bottom.

use vstd::prelude::*;

use crate::text::{chars_of, string_from};

verus! {

/// What a keystroke asked for.
#[derive(Clone, PartialEq, Eq, Debug)]
pub enum Key {
    Up,
    Down,
    Left,
    Right,
    PageUp,
    PageDown,
    Home,
    End,
    Enter,
    Tab,
    Escape,
    Delete,
    Backspace,
    Edit,
    /// A printable character that starts an edit.
    Typed(String),
}

/// One sheet tab along the bottom.
#[derive(Clone, PartialEq, Eq, Debug)]
pub struct Tab {
    pub name: String,
    pub active: bool,
}

/// `char::is_control`: the Unicode general category `Cc`, which is the C0
/// controls, delete, and the C1 controls.
pub open spec fn control(c: char) -> bool {
    (c as u32) <= 0x1F || (0x7F <= (c as u32) && (c as u32) <= 0x9F)
}

fn is_control(c: char) -> (b: bool)
    ensures
        b == control(c),
{
    let u = c as u32;
    u <= 0x1F || (0x7F <= u && u <= 0x9F)
}

/// The key the interface means by a name, for the names it sends for keys
/// that are not characters.
pub open spec fn named_key(name: Seq<char>) -> Option<Key> {
    if name == "up"@ {
        Some(Key::Up)
    } else if name == "down"@ {
        Some(Key::Down)
    } else if name == "left"@ {
        Some(Key::Left)
    } else if name == "right"@ {
        Some(Key::Right)
    } else if name == "pageup"@ {
        Some(Key::PageUp)
    } else if name == "pagedown"@ {
        Some(Key::PageDown)
    } else if name == "home"@ {
        Some(Key::Home)
    } else if name == "end"@ {
        Some(Key::End)
    } else if name == "enter"@ {
        Some(Key::Enter)
    } else if name == "tab"@ {
        Some(Key::Tab)
    } else if name == "escape"@ {
        Some(Key::Escape)
    } else if name == "delete"@ {
        Some(Key::Delete)
    } else if name == "backspace"@ {
        Some(Key::Backspace)
    } else if name == "edit"@ {
        Some(Key::Edit)
    } else {
        None
    }
}

/// Whether a name could be something a person typed: not empty, and with no
/// control character in it.
pub open spec fn typeable(name: Seq<char>) -> bool {
    name.len() > 0 && forall|i: int| 0 <= i < name.len() ==> !control(#[trigger] name[i])
}

fn same_text(a: &Vec<char>, word: &str) -> (b: bool)
    ensures
        b == (a@ == word@),
{
    let w = chars_of(word);
    if a.len() != w.len() {
        return false;
    }
    let mut i: usize = 0;
    while i < a.len()
        invariant
            w@ == word@,
            a@.len() == w@.len(),
            i <= a@.len(),
            forall|j: int| 0 <= j < i ==> a@[j] == w@[j],
        decreases a.len() - i,
    {
        if a[i] != w[i] {
            return false;
        }
        i = i + 1;
    }
    assert(a@ =~= w@);
    true
}

fn named(chars: &Vec<char>) -> (r: Option<Key>)
    ensures
        r == named_key(chars@),
{
    if same_text(chars, "up") {
        Some(Key::Up)
    } else if same_text(chars, "down") {
        Some(Key::Down)
    } else if same_text(chars, "left") {
        Some(Key::Left)
    } else if same_text(chars, "right") {
        Some(Key::Right)
    } else if same_text(chars, "pageup") {
        Some(Key::PageUp)
    } else if same_text(chars, "pagedown") {
        Some(Key::PageDown)
    } else if same_text(chars, "home") {
        Some(Key::Home)
    } else if same_text(chars, "end") {
        Some(Key::End)
    } else if same_text(chars, "enter") {
        Some(Key::Enter)
    } else if same_text(chars, "tab") {
        Some(Key::Tab)
    } else if same_text(chars, "escape") {
        Some(Key::Escape)
    } else if same_text(chars, "delete") {
        Some(Key::Delete)
    } else if same_text(chars, "backspace") {
        Some(Key::Backspace)
    } else if same_text(chars, "edit") {
        Some(Key::Edit)
    } else {
        None
    }
}

/// Map a key name from the interface onto something the state understands.
///
/// A name that is not one of the named keys is a keystroke only if it is
/// something a person typed.
pub fn key_from(name: &str) -> (r: Option<Key>)
    ensures
        named_key(name@) is Some ==> r == named_key(name@),
        named_key(name@) is None ==> (r is Some <==> typeable(name@)),
        named_key(name@) is None ==> (r matches Some(k) ==> k matches Key::Typed(t) && t@ == name@),
{
    let chars = chars_of(name);
    match named(&chars) {
        Some(key) => {
            return Some(key);
        },
        None => {},
    }
    if chars.len() == 0 {
        return None;
    }
    let mut i: usize = 0;
    while i < chars.len()
        invariant
            i <= chars@.len(),
            chars@ == name@,
            named_key(name@) is None,
            forall|j: int| 0 <= j < i ==> !control(#[trigger] chars@[j]),
        decreases chars.len() - i,
    {
        if is_control(chars[i]) {
            return None;
        }
        i = i + 1;
    }
    Some(Key::Typed(string_from(&chars)))
}

} // verus!
