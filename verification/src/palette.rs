//! The colour tokens.
//!
//! Light is the default theme; dark is an option. The two differ only in
//! colour. Nothing dimensional lives here.
//!
//! The hues are purple and rust: purple drives interaction (selection, focus,
//! the active tab) because it collides with none of the semantic colours, and
//! rust is the brand mark. The neutrals are warm rather than blue-grey,
//! because a cold grey beside a rust accent reads as a mistake.

use vstd::prelude::*;

use crate::text::push_char;

verus! {

/// An opaque 24-bit colour.
#[derive(Clone, Copy, PartialEq, Eq, Structural, Hash, Debug)]
pub struct Rgb {
    pub r: u8,
    pub g: u8,
    pub b: u8,
}

/// The colour `0xRRGGBB` names; bits above the lowest 24 are ignored.
pub open spec fn rgb_of(value: u32) -> Rgb {
    Rgb { r: ((value >> 16) & 0xFF) as u8, g: ((value >> 8) & 0xFF) as u8, b: (value & 0xFF) as u8 }
}

/// A colour packed back into `0xRRGGBB`.
pub open spec fn packed(c: Rgb) -> u32 {
    ((c.r as u32) << 16) | ((c.g as u32) << 8) | (c.b as u32)
}

/// The small-letter hexadecimal digit for a value below sixteen.
pub open spec fn hex_digit(d: nat) -> char {
    if d < 10 {
        ((d + 48) as u32) as char
    } else {
        ((d + 87) as u32) as char
    }
}

/// Two hexadecimal digits for a byte.
pub open spec fn hex_byte(v: u8) -> Seq<char> {
    seq![hex_digit((v / 16) as nat), hex_digit((v % 16) as nat)]
}

/// `#rrggbb`, in small letters.
pub open spec fn hex_text(c: Rgb) -> Seq<char> {
    seq!['#'] + hex_byte(c.r) + hex_byte(c.g) + hex_byte(c.b)
}

fn hex_digit_char(d: u8) -> (c: char)
    requires
        d < 16,
    ensures
        c == hex_digit(d as nat),
{
    let digits: [char; 16] = [
        '0', '1', '2', '3', '4', '5', '6', '7', '8', '9', 'a', 'b', 'c', 'd', 'e', 'f',
    ];
    assert(digits@ =~= seq!['0', '1', '2', '3', '4', '5', '6', '7', '8', '9', 'a', 'b', 'c', 'd', 'e', 'f']);
    digits[d as usize]
}

fn push_hex_byte(s: &mut String, v: u8)
    ensures
        final(s)@ == old(s)@ + hex_byte(v),
{
    push_char(s, hex_digit_char(v / 16));
    push_char(s, hex_digit_char(v % 16));
    assert(s@ =~= old(s)@ + hex_byte(v));
}

impl Rgb {
    /// Build from `0xRRGGBB`, so the source reads like the hex a designer quotes.
    pub fn hex(value: u32) -> (c: Self)
        ensures
            c == rgb_of(value),
    {
        Rgb { r: ((value >> 16) & 0xFF) as u8, g: ((value >> 8) & 0xFF) as u8, b: (value & 0xFF) as u8 }
    }

    pub fn to_u32(self) -> (v: u32)
        ensures
            v == packed(self),
    {
        ((self.r as u32) << 16) | ((self.g as u32) << 8) | (self.b as u32)
    }

    pub fn to_hex(self) -> (s: String)
        ensures
            s@ == hex_text(self),
    {
        let mut s = String::new();
        push_char(&mut s, '#');
        push_hex_byte(&mut s, self.r);
        push_hex_byte(&mut s, self.g);
        push_hex_byte(&mut s, self.b);
        assert(s@ =~= hex_text(self));
        s
    }
}

/// A colour read from its packed form and packed again keeps the lowest 24
/// bits, and a colour packed and read back is the same colour.
pub proof fn lemma_hex_round_trip(value: u32, c: Rgb)
    ensures
        packed(rgb_of(value)) == value & 0xFF_FFFF,
        rgb_of(packed(c)) == c,
{
    assert(((((value >> 16) & 0xFF) as u8 as u32) << 16) | ((((value >> 8) & 0xFF) as u8 as u32)
        << 8) | (((value & 0xFF) as u8) as u32) == value & 0xFF_FFFF) by (bit_vector);
    let (r, g, b) = (c.r, c.g, c.b);
    let p: u32 = ((r as u32) << 16) | ((g as u32) << 8) | (b as u32);
    assert(((p >> 16) & 0xFF) as u8 == r && ((p >> 8) & 0xFF) as u8 == g && (p & 0xFF) as u8 == b)
        by (bit_vector)
        requires
            p == ((r as u32) << 16) | ((g as u32) << 8) | (b as u32),
    ;
}

/// Which of the two themes a palette is.
#[derive(Clone, Copy, PartialEq, Eq, Structural, Debug)]
pub enum Theme {
    Light,
    Dark,
}

impl Default for Theme {
    fn default() -> (t: Self)
        ensures
            t == Theme::Light,
    {
        Theme::Light
    }
}

impl Theme {
    pub open spec fn colours(self) -> Palette {
        match self {
            Theme::Light => light_palette(),
            Theme::Dark => dark_palette(),
        }
    }

    pub fn palette(self) -> (p: Palette)
        ensures
            p == self.colours(),
    {
        match self {
            Theme::Light => light(),
            Theme::Dark => dark(),
        }
    }
}

/// Every colour one theme defines.
#[derive(Clone, Copy, PartialEq, Eq, Structural, Debug)]
pub struct Palette {
    /// The cell area and the code editor background.
    pub canvas: Rgb,
    /// Tool panes and the status bar.
    pub surface: Rgb,
    /// Toolbar, tab strip, formula bar.
    pub chrome: Rgb,
    /// Pane titles, and the row and column headers.
    pub header: Rgb,
    /// Menus, popovers and the active tab.
    pub elevated: Rgb,
    /// The wash over a selected range or a selected line.
    pub selection: Rgb,
    /// The tint on the statement the debugger is stopped at.
    pub run_line: Rgb,
    pub text_primary: Rgb,
    pub text_secondary: Rgb,
    pub text_muted: Rgb,
    pub danger: Rgb,
    pub warning: Rgb,
    pub success: Rgb,
    /// The accent at a weight safe for text.
    pub accent_text: Rgb,
    /// The brand at a weight safe for text.
    pub brand_text: Rgb,
    pub syntax_comment: Rgb,
    pub syntax_keyword: Rgb,
    pub syntax_type: Rgb,
    pub syntax_identifier: Rgb,
    pub syntax_string: Rgb,
    pub syntax_number: Rgb,
    /// Selection borders, the active cell outline, the active tab marker.
    pub accent: Rgb,
    /// The Ferrum mark. Used sparingly.
    pub brand: Rgb,
    pub focus_ring: Rgb,
    /// A border that has to be seen, as opposed to a hairline.
    pub border_strong: Rgb,
    pub gridline: Rgb,
    pub divider: Rgb,
}

/// The default theme.
///
/// The cell area and the gridline are Excel's own, measured from a live
/// window rather than recalled, so a sheet looks the way the muscle memory
/// expects. Everything else is Ferrum's.
pub open spec fn light_palette() -> Palette {
    Palette {
        canvas: rgb_of(0xffffff),
        surface: rgb_of(0xfaf8f7),
        chrome: rgb_of(0xf4f1f0),
        header: rgb_of(0xebe7e5),
        elevated: rgb_of(0xffffff),
        selection: rgb_of(0xece1f7),
        run_line: rgb_of(0xfbefd8),
        text_primary: rgb_of(0x1c1a19),
        text_secondary: rgb_of(0x494442),
        text_muted: rgb_of(0x5e5855),
        danger: rgb_of(0xc01c30),
        warning: rgb_of(0x7a5000),
        success: rgb_of(0x166630),
        accent_text: rgb_of(0x6d2b96),
        brand_text: rgb_of(0x8f4a16),
        syntax_comment: rgb_of(0x2d6324),
        syntax_keyword: rgb_of(0x7b2d96),
        syntax_type: rgb_of(0x0f5f56),
        syntax_identifier: rgb_of(0x0b4f9e),
        syntax_string: rgb_of(0x9c3a1c),
        syntax_number: rgb_of(0x2d6a2d),
        accent: rgb_of(0x7c34a8),
        brand: rgb_of(0xa24d1f),
        focus_ring: rgb_of(0x7c34a8),
        border_strong: rgb_of(0x8a817d),
        gridline: rgb_of(0xe0e0e0),
        divider: rgb_of(0xd4cecb),
    }
}

/// The dark option. Same geometry, same roles, different colours.
pub open spec fn dark_palette() -> Palette {
    Palette {
        canvas: rgb_of(0x1a1817),
        surface: rgb_of(0x201d1c),
        chrome: rgb_of(0x252221),
        header: rgb_of(0x2b2726),
        elevated: rgb_of(0x332e2c),
        selection: rgb_of(0x3a2b4a),
        run_line: rgb_of(0x352a1f),
        text_primary: rgb_of(0xe6e1df),
        text_secondary: rgb_of(0xb9b2af),
        text_muted: rgb_of(0xa8a19e),
        danger: rgb_of(0xff7b8e),
        warning: rgb_of(0xe8ab3a),
        success: rgb_of(0x5fd184),
        accent_text: rgb_of(0xc79ae0),
        brand_text: rgb_of(0xe89554),
        syntax_comment: rgb_of(0x8fb573),
        syntax_keyword: rgb_of(0xc79ae0),
        syntax_type: rgb_of(0x7bc7b8),
        syntax_identifier: rgb_of(0xafdafc),
        syntax_string: rgb_of(0xe09b76),
        syntax_number: rgb_of(0xb5cea8),
        accent: rgb_of(0xb98ee0),
        brand: rgb_of(0xe07840),
        focus_ring: rgb_of(0xb98ee0),
        border_strong: rgb_of(0x857c78),
        gridline: rgb_of(0x332e2c),
        divider: rgb_of(0x423b38),
    }
}

/// The light palette.
pub fn light() -> (p: Palette)
    ensures
        p == light_palette(),
{
    Palette {
        canvas: Rgb::hex(0xffffff),
        surface: Rgb::hex(0xfaf8f7),
        chrome: Rgb::hex(0xf4f1f0),
        header: Rgb::hex(0xebe7e5),
        elevated: Rgb::hex(0xffffff),
        selection: Rgb::hex(0xece1f7),
        run_line: Rgb::hex(0xfbefd8),
        text_primary: Rgb::hex(0x1c1a19),
        text_secondary: Rgb::hex(0x494442),
        text_muted: Rgb::hex(0x5e5855),
        danger: Rgb::hex(0xc01c30),
        warning: Rgb::hex(0x7a5000),
        success: Rgb::hex(0x166630),
        accent_text: Rgb::hex(0x6d2b96),
        brand_text: Rgb::hex(0x8f4a16),
        syntax_comment: Rgb::hex(0x2d6324),
        syntax_keyword: Rgb::hex(0x7b2d96),
        syntax_type: Rgb::hex(0x0f5f56),
        syntax_identifier: Rgb::hex(0x0b4f9e),
        syntax_string: Rgb::hex(0x9c3a1c),
        syntax_number: Rgb::hex(0x2d6a2d),
        accent: Rgb::hex(0x7c34a8),
        brand: Rgb::hex(0xa24d1f),
        focus_ring: Rgb::hex(0x7c34a8),
        border_strong: Rgb::hex(0x8a817d),
        gridline: Rgb::hex(0xe0e0e0),
        divider: Rgb::hex(0xd4cecb),
    }
}

/// The dark palette.
pub fn dark() -> (p: Palette)
    ensures
        p == dark_palette(),
{
    Palette {
        canvas: Rgb::hex(0x1a1817),
        surface: Rgb::hex(0x201d1c),
        chrome: Rgb::hex(0x252221),
        header: Rgb::hex(0x2b2726),
        elevated: Rgb::hex(0x332e2c),
        selection: Rgb::hex(0x3a2b4a),
        run_line: Rgb::hex(0x352a1f),
        text_primary: Rgb::hex(0xe6e1df),
        text_secondary: Rgb::hex(0xb9b2af),
        text_muted: Rgb::hex(0xa8a19e),
        danger: Rgb::hex(0xff7b8e),
        warning: Rgb::hex(0xe8ab3a),
        success: Rgb::hex(0x5fd184),
        accent_text: Rgb::hex(0xc79ae0),
        brand_text: Rgb::hex(0xe89554),
        syntax_comment: Rgb::hex(0x8fb573),
        syntax_keyword: Rgb::hex(0xc79ae0),
        syntax_type: Rgb::hex(0x7bc7b8),
        syntax_identifier: Rgb::hex(0xafdafc),
        syntax_string: Rgb::hex(0xe09b76),
        syntax_number: Rgb::hex(0xb5cea8),
        accent: Rgb::hex(0xb98ee0),
        brand: Rgb::hex(0xe07840),
        focus_ring: Rgb::hex(0xb98ee0),
        border_strong: Rgb::hex(0x857c78),
        gridline: Rgb::hex(0x332e2c),
        divider: Rgb::hex(0x423b38),
    }
}

impl Palette {
    /// Every background that text or a control can be drawn on.
    pub fn surfaces(&self) -> (r: [(&'static str, Rgb); 7])
        ensures
            r@ == seq![
                ("canvas", self.canvas),
                ("surface", self.surface),
                ("chrome", self.chrome),
                ("header", self.header),
                ("elevated", self.elevated),
                ("selection", self.selection),
                ("run_line", self.run_line),
            ],
    {
        let r = [
            ("canvas", self.canvas),
            ("surface", self.surface),
            ("chrome", self.chrome),
            ("header", self.header),
            ("elevated", self.elevated),
            ("selection", self.selection),
            ("run_line", self.run_line),
        ];
        assert(r@ =~= seq![
            ("canvas", self.canvas),
            ("surface", self.surface),
            ("chrome", self.chrome),
            ("header", self.header),
            ("elevated", self.elevated),
            ("selection", self.selection),
            ("run_line", self.run_line),
        ]);
        r
    }

    /// Every colour used for text, which must clear the body-text floor.
    pub fn text_tokens(&self) -> (r: [(&'static str, Rgb); 14])
        ensures
            r@ == seq![
                ("text_primary", self.text_primary),
                ("text_secondary", self.text_secondary),
                ("text_muted", self.text_muted),
                ("danger", self.danger),
                ("warning", self.warning),
                ("success", self.success),
                ("accent_text", self.accent_text),
                ("brand_text", self.brand_text),
                ("syntax_comment", self.syntax_comment),
                ("syntax_keyword", self.syntax_keyword),
                ("syntax_type", self.syntax_type),
                ("syntax_identifier", self.syntax_identifier),
                ("syntax_string", self.syntax_string),
                ("syntax_number", self.syntax_number),
            ],
    {
        let r = [
            ("text_primary", self.text_primary),
            ("text_secondary", self.text_secondary),
            ("text_muted", self.text_muted),
            ("danger", self.danger),
            ("warning", self.warning),
            ("success", self.success),
            ("accent_text", self.accent_text),
            ("brand_text", self.brand_text),
            ("syntax_comment", self.syntax_comment),
            ("syntax_keyword", self.syntax_keyword),
            ("syntax_type", self.syntax_type),
            ("syntax_identifier", self.syntax_identifier),
            ("syntax_string", self.syntax_string),
            ("syntax_number", self.syntax_number),
        ];
        assert(r@ =~= seq![
            ("text_primary", self.text_primary),
            ("text_secondary", self.text_secondary),
            ("text_muted", self.text_muted),
            ("danger", self.danger),
            ("warning", self.warning),
            ("success", self.success),
            ("accent_text", self.accent_text),
            ("brand_text", self.brand_text),
            ("syntax_comment", self.syntax_comment),
            ("syntax_keyword", self.syntax_keyword),
            ("syntax_type", self.syntax_type),
            ("syntax_identifier", self.syntax_identifier),
            ("syntax_string", self.syntax_string),
            ("syntax_number", self.syntax_number),
        ]);
        r
    }

    /// Every colour used for a non-text control, which must clear the UI floor.
    pub fn ui_tokens(&self) -> (r: [(&'static str, Rgb); 4])
        ensures
            r@ == seq![
                ("accent", self.accent),
                ("brand", self.brand),
                ("focus_ring", self.focus_ring),
                ("border_strong", self.border_strong),
            ],
    {
        let r = [
            ("accent", self.accent),
            ("brand", self.brand),
            ("focus_ring", self.focus_ring),
            ("border_strong", self.border_strong),
        ];
        assert(r@ =~= seq![
            ("accent", self.accent),
            ("brand", self.brand),
            ("focus_ring", self.focus_ring),
            ("border_strong", self.border_strong),
        ]);
        r
    }

    /// The structural hairlines, held to their own low bar.
    pub fn structure_tokens(&self) -> (r: [(&'static str, Rgb); 2])
        ensures
            r@ == seq![("gridline", self.gridline), ("divider", self.divider)],
    {
        let r = [("gridline", self.gridline), ("divider", self.divider)];
        assert(r@ =~= seq![("gridline", self.gridline), ("divider", self.divider)]);
        r
    }
}

} // verus!
