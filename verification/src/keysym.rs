//! Keyboard symbols as plain values.
//!
//! A keysym is carried as a `u32`, exactly as the X keysym encoding defines
//! it.  The constants below are the symbols the menu logic itself inspects;
//! everything else flows through the code unchanged.

use vstd::prelude::*;

verus! {

/// The value that stands for "no symbol" in the X keysym encoding.
pub const KEYSYM_NO_SYMBOL: u32 = 0;

/// The keysym of the plus sign `+`.
pub const KEYSYM_PLUS: u32 = 0x2b;

/// The keysym of the left bracket `[`.
pub const KEYSYM_BRACKET_LEFT: u32 = 0x5b;

/// The keysym of the lower-case letter `g`.
pub const KEYSYM_LOWER_G: u32 = 0x67;

/// The keysym of the backspace key.
pub const KEYSYM_BACKSPACE: u32 = 0xff08;

/// The keysym of the escape key.
pub const KEYSYM_ESCAPE: u32 = 0xff1b;

/// The keysym that the X keysym encoding assigns to a Unicode code point.
///
/// The full mapping includes a large table of legacy keysyms, so it is left
/// uninterpreted here; the facts that the menu logic needs are stated on
/// [`keysym_from_char`].
pub uninterp spec fn sym_of_char(c: char) -> u32;

/// Relies on `xkeysym::Keysym::from_char`, which maps a Unicode code point to
/// its keysym the way `xkb_utf32_to_keysym` does.  The result depends on the
/// code point alone.  Printable Latin-1 code points map to themselves, and the
/// call yields `KEYSYM_NO_SYMBOL` exactly for the Unicode noncharacters
/// (`U+FDD0..=U+FDEF` and every code point whose low 16 bits are `FFFE` or
/// `FFFF`); each remaining branch of the mapping returns a nonzero keysym.
#[verifier::external_body]
pub fn keysym_from_char(c: char) -> (r: u32)
    ensures
        r == sym_of_char(c),
        (0x20 <= c as u32 <= 0x7e || 0xa0 <= c as u32 <= 0xff) ==> r == c as u32,
        (r == KEYSYM_NO_SYMBOL) <==> (0xfdd0 <= c as u32 <= 0xfdef || (c as u32) % 0x10000
            >= 0xfffe),
{
    xkeysym::Keysym::from_char(c).raw()
}

} // verus!
